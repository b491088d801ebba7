//! The authenticated-encryption envelope: a 16-byte key, a fresh 12-byte
//! nonce per message, and AES-128-GCM-SIV providing the ciphertext and its
//! 16-byte tag.  The cipher itself is an outside collaborator; what the
//! library states about it is written on the three trusted items below.

use vstd::prelude::*;

use crate::errors::DosrError;
use aes_gcm_siv::aead::{Aead, Generate, KeyInit};
use aes_gcm_siv::{Aes128GcmSiv, Nonce};

verus! {

/// The ciphertext-with-tag that AES-128-GCM-SIV produces for a key, a nonce
/// and a plaintext.  The cipher is deterministic, so this is a function of
/// its three arguments; its value is stated only by the trusted items below.
pub uninterp spec fn aead_ct(key: Seq<u8>, nonce: Seq<u8>, pt: Seq<u8>) -> Seq<u8>;

/// What AES-128-GCM-SIV decryption returns for a key, a nonce and a
/// ciphertext-with-tag: the plaintext, or nothing when authentication fails.
pub uninterp spec fn aead_pt(key: Seq<u8>, nonce: Seq<u8>, ct: Seq<u8>) -> Option<Seq<u8>>;

/// A 16-byte AES-128-GCM-SIV key.
pub struct AeadKey {
    bytes: Vec<u8>,
}

impl View for AeadKey {
    type V = Seq<u8>;

    closed spec fn view(&self) -> Seq<u8> {
        self.bytes@
    }
}

impl AeadKey {
    /// A key is well formed when it is exactly 16 bytes long.
    pub open spec fn wf(&self) -> bool {
        self@.len() == 16
    }

    /// Accepts exactly 16-byte keys and rejects every other length.
    pub fn new(bytes: Vec<u8>) -> (r: Result<AeadKey, DosrError>)
        ensures
            bytes@.len() == 16 ==> (r matches Ok(k) && k@ == bytes@),
            bytes@.len() != 16 ==> (r matches Err(e) && e == DosrError::KeyLength),
    {
        if bytes.len() == 16 {
            Ok(AeadKey { bytes })
        } else {
            Err(DosrError::KeyLength)
        }
    }
}

/// Relies on `aes_gcm_siv::Aes128GcmSiv`: `KeyInit::new_from_slice` accepts
/// any 16-byte key, and `Aead::encrypt` (no associated data) appends the
/// 16-byte tag to the ciphertext and fails only when the plaintext exceeds
/// the RFC 8452 length bound of 2^36 bytes.  AES-GCM-SIV is deterministic
/// in key, nonce and plaintext, and decrypting its output under the same
/// key and nonce restores the plaintext.
#[verifier::external_body]
pub(crate) fn aead_encrypt(key: &AeadKey, nonce: &Vec<u8>, pt: &Vec<u8>) -> (ct: Vec<u8>)
    requires
        key@.len() == 16,
        nonce@.len() == 12,
        pt@.len() <= 0x10_0000_0000,
    ensures
        ct@ == aead_ct(key@, nonce@, pt@),
        ct@.len() == pt@.len() + 16,
        aead_pt(key@, nonce@, ct@) == Some(pt@),
{
    let cipher = Aes128GcmSiv::new_from_slice(key.bytes.as_slice()).expect("the key is 16 bytes");
    let n = Nonce::try_from(nonce.as_slice()).expect("the nonce is 12 bytes");
    cipher.encrypt(&n, pt.as_slice()).expect("the plaintext is within the cipher's length bound")
}

/// Relies on `aes_gcm_siv::Aes128GcmSiv`: `Aead::decrypt` (no associated
/// data) returns the plaintext, 16 bytes shorter than its input, exactly
/// when the ciphertext authenticates under this key and nonce, and an error
/// otherwise.
#[verifier::external_body]
pub(crate) fn aead_decrypt(key: &AeadKey, nonce: &Vec<u8>, ct: &Vec<u8>) -> (r: Option<Vec<u8>>)
    requires
        key@.len() == 16,
        nonce@.len() == 12,
    ensures
        r matches Some(pt) ==> aead_pt(key@, nonce@, ct@) == Some(pt@) && ct@.len() == pt@.len()
            + 16,
        r is None ==> aead_pt(key@, nonce@, ct@) is None,
{
    let cipher = Aes128GcmSiv::new_from_slice(key.bytes.as_slice()).expect("the key is 16 bytes");
    let n = Nonce::try_from(nonce.as_slice()).expect("the nonce is 12 bytes");
    cipher.decrypt(&n, ct.as_slice()).ok()
}

/// Relies on `aead::Generate` for `aes_gcm_siv::Nonce`: 12 bytes drawn from
/// the operating system's random source.  Nothing is assumed of their
/// values, only of their number.
#[verifier::external_body]
pub(crate) fn generate_nonce() -> (n: Vec<u8>)
    ensures
        n@.len() == 12,
{
    let nonce: Nonce = Nonce::generate();
    nonce.as_slice().to_vec()
}

} // verus!
