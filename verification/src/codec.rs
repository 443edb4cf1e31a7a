//! Authenticated decryption of one chunk.
//!
//! A chunk is a 16-byte authentication tag and the encrypted bytes that it
//! authenticates, sealed under a 32-byte key and a 24-byte nonce with
//! XSalsa20 and Poly1305. The cipher is that of the sodium library, reached
//! through the `sodiumoxide` crate.

use crate::error::DecryptionError;
use sodiumoxide::crypto::secretbox;
use vstd::prelude::*;

verus! {

/// Number of bytes in the authentication tag of a chunk: the number of
/// bytes by which a chunk is longer than its plaintext.
pub const TAG_SIZE: usize = 16;

/// What the secretbox construction makes of encrypted bytes under a nonce
/// and a key: first the tag that authenticates them, then the plaintext
/// that they decrypt to.
pub uninterp spec fn secretbox_parts(body: Seq<u8>, nonce: Seq<u8>, key: Seq<u8>) -> (Seq<u8>, Seq<u8>);

/// The authentication tag of a chunk: its first [`TAG_SIZE`] bytes.
pub open spec fn tag_of(chunk: Seq<u8>) -> Seq<u8> {
    chunk.subrange(0, TAG_SIZE as int)
}

/// The encrypted bytes of a chunk: what follows its tag.
pub open spec fn body_of(chunk: Seq<u8>) -> Seq<u8> {
    chunk.subrange(TAG_SIZE as int, chunk.len() as int)
}

/// The chunk carries a tag, and it is the tag that authenticates its
/// encrypted bytes under `nonce` and `key`.
pub open spec fn authentic(chunk: Seq<u8>, nonce: Seq<u8>, key: Seq<u8>) -> bool {
    chunk.len() >= TAG_SIZE && tag_of(chunk) == secretbox_parts(body_of(chunk), nonce, key).0
}

/// What `chunk` opens to under `nonce` and `key`: the plaintext of its
/// encrypted bytes where the chunk is authentic, else `None`.
pub open spec fn secretbox_opened(chunk: Seq<u8>, nonce: Seq<u8>, key: Seq<u8>) -> Option<Seq<u8>> {
    if authentic(chunk, nonce, key) {
        Some(secretbox_parts(body_of(chunk), nonce, key).1)
    } else {
        None
    }
}

/// Corrupting the tag of a chunk makes the chunk fail: a chunk that opens
/// no longer opens once any one byte of its tag is changed.
pub proof fn lemma_corrupted_tag_fails(chunk: Seq<u8>, nonce: Seq<u8>, key: Seq<u8>, i: int, byte: u8)
    requires
        secretbox_opened(chunk, nonce, key) is Some,
        0 <= i < TAG_SIZE,
        byte != chunk[i],
    ensures
        secretbox_opened(chunk.update(i, byte), nonce, key) is None,
{
    let corrupted = chunk.update(i, byte);
    assert(body_of(corrupted) =~= body_of(chunk));
    assert(tag_of(corrupted)[i] == byte);
    assert(tag_of(chunk)[i] == chunk[i]);
}

/// Calls `sodiumoxide::init`. Whether the sodium library can be initialised
/// depends on the machine, so nothing is claimed of the result.
#[verifier::external_body]
fn sodium_init() -> (ready: bool) {
    sodiumoxide::init().is_ok()
}

/// Calls `sodiumoxide::crypto::secretbox::open`. A ciphertext is a 16-byte
/// tag followed by the encrypted bytes. The call succeeds exactly when the
/// ciphertext holds a tag and the tag is the one that authenticates the
/// encrypted bytes under the nonce and the key; it then yields the plaintext
/// that the encrypted bytes decrypt to, which is as long as they are. That
/// tag and that plaintext are functions of the encrypted bytes, the nonce
/// and the key, named [`secretbox_parts`].
#[verifier::external_body]
fn secretbox_open(ciphertext: &[u8], nonce: &[u8; 24], key: &[u8; 32]) -> (opened: Result<Vec<u8>, ()>)
    ensures
        opened is Ok <==> authentic(ciphertext@, nonce@, key@),
        opened matches Ok(plaintext) ==> plaintext@ == secretbox_parts(
            body_of(ciphertext@),
            nonce@,
            key@,
        ).1,
        opened matches Ok(plaintext) ==> plaintext@.len() + 16 == ciphertext@.len(),
{
    secretbox::open(ciphertext, &secretbox::Nonce(*nonce), &secretbox::Key(*key))
}

/// The sodium library, initialised. A value of this type is the evidence
/// that the initialisation succeeded in this process.
pub struct Sodium {
    _private: (),
}

impl Sodium {
    /// Initialises the sodium library. `None` means that it could not be
    /// initialised on this machine; no chunk can then be opened.
    pub fn init() -> (sodium: Option<Sodium>) {
        if sodium_init() {
            Some(Sodium { _private: () })
        } else {
            None
        }
    }

    /// Authenticates and decrypts one chunk. A chunk that does not
    /// authenticate gives [`DecryptionError::InvalidPassword`], whichever of
    /// key, nonce and ciphertext is at fault.
    pub fn open(&self, chunk: &[u8], key: &[u8; 32], nonce: &[u8; 24]) -> (opened: Result<Vec<u8>, DecryptionError>)
        ensures
            match opened {
                Ok(plaintext) => secretbox_opened(chunk@, nonce@, key@) == Some(plaintext@),
                Err(e) => e is InvalidPassword && secretbox_opened(chunk@, nonce@, key@) is None,
            },
            chunk@.len() < TAG_SIZE ==> opened is Err,
            opened matches Ok(plaintext) ==> plaintext@.len() + TAG_SIZE == chunk@.len(),
    {
        match secretbox_open(chunk, nonce, key) {
            Ok(plaintext) => Ok(plaintext),
            Err(_) => Err(DecryptionError::InvalidPassword),
        }
    }
}

} // verus!
