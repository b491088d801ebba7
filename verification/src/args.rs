use vstd::prelude::*;

verus! {

/// How a payload's AEAD key is obtained: directly from a key file, or by
/// an elliptic-curve key agreement between a private and a public key file.
#[derive(Debug)]
pub enum Encryption {
    Symmetric { key_path: String },
    Asymmetric { private_key_path: String, public_key_path: String },
}

/// What a caller asks of the modem: turn a message into a signal file, or
/// turn a signal file back into a message.
#[derive(Debug)]
pub enum Action {
    Encode { message: String, output_path: String, encryption_options: Option<Encryption> },
    Decode { input_path: String, encryption_options: Option<Encryption> },
}

} // verus!
