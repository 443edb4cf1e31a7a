//! The ways in which decoding a salt or decrypting a container can fail.

use vstd::prelude::*;

verus! {

/// The error of `hex::decode`; verified code only carries it along.
#[verifier::external_type_specification]
#[verifier::external_body]
pub struct ExFromHexError(hex::FromHexError);

/// The error of the base64 engines; verified code only carries it along.
#[verifier::external_type_specification]
#[verifier::external_body]
pub struct ExBase64DecodeError(base64::DecodeError);

/// Why a salt could not be decoded or a container could not be decrypted.
#[derive(Debug)]
pub enum DecryptionError {
    /// The input is not a container of this format: it is shorter than the
    /// header or does not start with the magic tag. No configuration can
    /// change that, so it is never retried.
    InvalidFormat,
    /// The key, nonce and ciphertext did not authenticate. Which of password,
    /// salt, cost parameters or nonce rule was wrong cannot be told.
    InvalidPassword,
    /// The cost parameters are not ones the key derivation accepts.
    BadParameters,
    /// A salt was not valid base64.
    Base64(base64::DecodeError),
    /// A salt was not valid hexadecimal.
    Hex(hex::FromHexError),
}

/// The result of an operation of this library.
pub type DecryptionResult<T> = Result<T, DecryptionError>;

} // verus!
