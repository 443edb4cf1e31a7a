//! Decryption of files in the rclone crypt format: a password-protected
//! container of chunks, each sealed with XSalsa20 and Poly1305 under a key
//! that scrypt derives from a password and a salt.
//!
//! - [`container`] reads the header and lays out the chunks.
//! - [`kdf`] derives the key.
//! - [`nonce`] gives each chunk its nonce.
//! - [`codec`] opens one chunk.
//! - [`engine`] decrypts a container for one configuration.
//! - [`salt`] turns a salt string into the bytes of a salt.
//! - [`decryptor`] decrypts with a known password and salt.
//! - [`search`] looks for the configuration that works when it is not known.

pub mod codec;
pub mod container;
pub mod decryptor;
pub mod engine;
pub mod error;
pub mod kdf;
pub mod nonce;
pub mod salt;
pub mod search;

pub use decryptor::RcloneDecryptor;
pub use error::{DecryptionError, DecryptionResult};
