//! Decryption with a known password and salt.

use crate::codec::Sodium;
use crate::container::well_formed;
use crate::engine::{
    decrypt_container, decrypt_container_with, decryption_outcome, reports, unauthenticated,
    Decrypted,
};
use crate::error::DecryptionResult;
use crate::kdf::{canonical_cost, CostParameters};
use crate::nonce::NonceRule;
use crate::salt::{decode_salt, decoded_salt};
use vstd::prelude::*;
use vstd::utf8::encode_utf8;

verus! {

/// Decrypts containers with one password and one salt, at the canonical
/// cost and with the little-endian nonce rule as the active rule.
pub struct RcloneDecryptor {
    password: String,
    salt: Vec<u8>,
}

impl RcloneDecryptor {
    /// The UTF-8 bytes of the password.
    pub closed spec fn password_bytes(&self) -> Seq<u8> {
        encode_utf8(self.password@)
    }

    /// The salt handed to the key derivation.
    pub closed spec fn salt_bytes(&self) -> Seq<u8> {
        self.salt@
    }

    /// Makes a decryptor from a password and a salt string. The salt string
    /// is decoded as [`decode_salt`] describes; a string that does not
    /// decode is taken as its own bytes, so this never fails.
    pub fn new(password: String, salt: String) -> (made: DecryptionResult<RcloneDecryptor>)
        ensures
            made matches Ok(decryptor) && decryptor.password_bytes() == encode_utf8(password@)
                && decryptor.salt_bytes() == decoded_salt(encode_utf8(salt@)),
    {
        let salt_bytes = decode_salt(salt.as_str());
        Ok(RcloneDecryptor { password, salt: salt_bytes })
    }

    /// The salt in use, as it is handed to the key derivation.
    pub fn get_salt_debug(&self) -> (salt: &[u8])
        ensures
            salt@ == self.salt_bytes(),
    {
        self.salt.as_slice()
    }

    /// Decrypts the bytes of a container.
    ///
    /// - Input that is no container fails with
    ///   [`crate::error::DecryptionError::InvalidFormat`].
    /// - A ciphertext that does not authenticate under the key derived from
    ///   the password and the salt fails with
    ///   [`crate::error::DecryptionError::InvalidPassword`]; no plaintext is
    ///   returned.
    pub fn decrypt_file_with(&self, sodium: &Sodium, data: &[u8]) -> (run: DecryptionResult<Decrypted>)
        ensures
            reports(
                run,
                decryption_outcome(
                    data@,
                    self.password_bytes(),
                    self.salt_bytes(),
                    canonical_cost(),
                    NonceRule::LittleEndianIncrement,
                ),
            ),
    {
        let params = CostParameters::canonical();
        decrypt_container_with(
            sodium,
            data,
            self.password.as_str().as_bytes(),
            self.salt.as_slice(),
            &params,
            NonceRule::LittleEndianIncrement,
        )
    }

    /// Decrypts the bytes of a container as [`Self::decrypt_file_with`]
    /// does, initialising the sodium library itself. Where the library
    /// cannot be initialised, a well-formed container fails with
    /// [`crate::error::DecryptionError::InvalidPassword`].
    pub fn decrypt_file(&self, data: &[u8]) -> (run: DecryptionResult<Decrypted>)
        ensures
            reports(
                run,
                decryption_outcome(
                    data@,
                    self.password_bytes(),
                    self.salt_bytes(),
                    canonical_cost(),
                    NonceRule::LittleEndianIncrement,
                ),
            ) || (well_formed(data@) && unauthenticated(run)),
    {
        let params = CostParameters::canonical();
        decrypt_container(
            data,
            self.password.as_str().as_bytes(),
            self.salt.as_slice(),
            &params,
            NonceRule::LittleEndianIncrement,
        )
    }
}

} // verus!
