//! The container format: a fixed header and the ciphertext that follows it.
//!
//! | offset | size | field |
//! |---|---|---|
//! | 0 | 8 | magic tag |
//! | 8 | 24 | base nonce |
//! | 32 | rest | ciphertext, in chunks |

use crate::error::DecryptionError;
use vstd::prelude::*;
use vstd::slice::slice_subrange;

verus! {

/// Number of bytes in the magic tag.
pub const MAGIC_SIZE: usize = 8;

/// Number of bytes in the header: the magic tag and the base nonce.
pub const HEADER_SIZE: usize = 32;

/// Number of plaintext bytes in a full chunk.
pub const CHUNK_PAYLOAD_SIZE: usize = 65536;

/// Number of ciphertext bytes in a full chunk: the payload and its tag.
pub const CHUNK_SIZE: usize = 65552;

/// The magic tag: the bytes of `RCLONE` and two zero bytes.
pub const MAGIC: [u8; 8] = [0x52, 0x43, 0x4c, 0x4f, 0x4e, 0x45, 0x00, 0x00];

/// The magic tag, as a sequence of bytes.
pub open spec fn magic() -> Seq<u8> {
    MAGIC@
}

/// `data` is long enough for a header and starts with the magic tag.
pub open spec fn well_formed(data: Seq<u8>) -> bool {
    data.len() >= HEADER_SIZE && data.subrange(0, MAGIC_SIZE as int) == magic()
}

/// The base nonce of a well-formed container.
pub open spec fn base_nonce_of(data: Seq<u8>) -> Seq<u8> {
    data.subrange(MAGIC_SIZE as int, HEADER_SIZE as int)
}

/// The ciphertext of a well-formed container.
pub open spec fn ciphertext_of(data: Seq<u8>) -> Seq<u8> {
    data.subrange(HEADER_SIZE as int, data.len() as int)
}

/// The length of the chunk that starts where `remaining` bytes of ciphertext
/// are left: a full chunk while more than one full chunk is left, else all
/// that is left.
pub open spec fn chunk_len(remaining: nat) -> nat {
    if remaining > CHUNK_SIZE {
        CHUNK_SIZE as nat
    } else {
        remaining
    }
}

/// The length of the chunk that starts where `remaining` bytes of ciphertext
/// are left.
pub fn next_chunk_len(remaining: usize) -> (len: usize)
    ensures
        len == chunk_len(remaining as nat),
{
    if remaining > CHUNK_SIZE {
        CHUNK_SIZE
    } else {
        remaining
    }
}

/// A parsed container: its base nonce and its ciphertext. The magic tag has
/// been checked; the ciphertext is borrowed from the input.
pub struct EncryptedContainer<'a> {
    base_nonce: [u8; 24],
    ciphertext: &'a [u8],
}

impl<'a> EncryptedContainer<'a> {
    /// The base nonce, as a sequence of 24 bytes.
    pub closed spec fn nonce_bytes(&self) -> Seq<u8> {
        self.base_nonce@
    }

    /// The ciphertext, as a sequence of bytes.
    pub closed spec fn ciphertext_bytes(&self) -> Seq<u8> {
        self.ciphertext@
    }

    /// Reads the header of a container. Input that is shorter than the
    /// header, or that does not start with the magic tag, is no container
    /// of this format.
    pub fn parse(data: &'a [u8]) -> (parsed: Result<EncryptedContainer<'a>, DecryptionError>)
        ensures
            match parsed {
                Ok(c) => well_formed(data@) && c.nonce_bytes() == base_nonce_of(data@)
                    && c.ciphertext_bytes() == ciphertext_of(data@),
                Err(e) => !well_formed(data@) && e is InvalidFormat,
            },
    {
        if data.len() < HEADER_SIZE {
            return Err(DecryptionError::InvalidFormat);
        }
        let mut i: usize = 0;
        while i < MAGIC_SIZE
            invariant
                i <= MAGIC_SIZE,
                data@.len() >= HEADER_SIZE,
                forall|j: int| 0 <= j < i ==> data@[j] == magic()[j],
            decreases MAGIC_SIZE - i,
        {
            if data[i] != MAGIC[i] {
                assert(data@.subrange(0, MAGIC_SIZE as int)[i as int] != magic()[i as int]);
                return Err(DecryptionError::InvalidFormat);
            }
            i = i + 1;
        }
        let mut base_nonce = [0u8; 24];
        let mut i: usize = 0;
        while i < 24
            invariant
                i <= 24,
                data@.len() >= HEADER_SIZE,
                forall|j: int| 0 <= j < i ==> base_nonce@[j] == data@[MAGIC_SIZE + j],
            decreases 24 - i,
        {
            let ghost prev = base_nonce@;
            base_nonce[i] = data[MAGIC_SIZE + i];
            assert(base_nonce@ == prev.update(i as int, data@[MAGIC_SIZE + i]));
            i = i + 1;
        }
        let ciphertext = slice_subrange(data, HEADER_SIZE, data.len());
        proof {
            assert(data@.subrange(0, MAGIC_SIZE as int) =~= magic());
            assert(base_nonce@ =~= base_nonce_of(data@));
        }
        Ok(EncryptedContainer { base_nonce, ciphertext })
    }

    /// The base nonce: the nonce of the first chunk.
    pub fn base_nonce(&self) -> (nonce: &[u8; 24])
        ensures
            nonce@ == self.nonce_bytes(),
    {
        &self.base_nonce
    }

    /// The ciphertext: everything after the header.
    pub fn ciphertext(&self) -> (ciphertext: &'a [u8])
        ensures
            ciphertext@ == self.ciphertext_bytes(),
    {
        self.ciphertext
    }
}

} // verus!
