//! Salts: from the string that a user supplies to the bytes that the key
//! derivation takes.
//!
//! A salt string is read, in this order, as nothing (the empty string), as
//! hexadecimal behind a `0x` or `0X` prefix, as base64 where it looks like
//! base64, and else as its own UTF-8 bytes. A string that does not decode
//! under the encoding chosen for it is taken as its own bytes.
//!
//! A short word of letters and digits looks like base64 too. The salt as
//! given is therefore read as base64 only where it is longer than
//! [`BASE64_MIN_LEN`] bytes; the recovery search reads it once more without
//! that limit.

use crate::error::DecryptionError;
use base64::Engine;
use vstd::prelude::*;
use vstd::slice::{slice_subrange, slice_to_vec};
use vstd::string::StringSliceAdditionalSpecFns;

verus! {

/// The longest string, in bytes, that is taken for base64.
pub const BASE64_MAX_LEN: usize = 100;

/// The salt as given must be longer than this, in bytes, to be decoded as
/// base64.
pub const BASE64_MIN_LEN: usize = 8;

/// The value of a hexadecimal digit, or `None` for any other byte.
pub open spec fn hex_digit(b: u8) -> Option<u8> {
    if 0x30 <= b <= 0x39 {
        Some((b - 0x30) as u8)
    } else if 0x41 <= b <= 0x46 {
        Some((b - 0x41 + 10) as u8)
    } else if 0x61 <= b <= 0x66 {
        Some((b - 0x61 + 10) as u8)
    } else {
        None
    }
}

/// `text` is an even number of hexadecimal digits, in either case.
pub open spec fn is_hex(text: Seq<u8>) -> bool {
    &&& text.len() % 2 == 0
    &&& forall|i: int| 0 <= i < text.len() ==> hex_digit(#[trigger] text[i]) is Some
}

/// The bytes that the hexadecimal digits `text` denote, two digits to a
/// byte, the high digit first.
pub open spec fn hex_decoded(text: Seq<u8>) -> Seq<u8> {
    Seq::new(
        text.len() / 2,
        |i: int| (16 * hex_digit(text[2 * i]).unwrap() + hex_digit(text[2 * i + 1]).unwrap()) as u8,
    )
}

/// What the standard base64 alphabet, with canonical padding, decodes `text`
/// to, or `None` where `text` is not valid base64.
pub uninterp spec fn base64_decoded(text: Seq<u8>) -> Option<Seq<u8>>;

/// `b` is a letter, a digit, `+`, `/` or `=`.
pub open spec fn is_base64_byte(b: u8) -> bool {
    ||| 0x41 <= b <= 0x5a
    ||| 0x61 <= b <= 0x7a
    ||| 0x30 <= b <= 0x39
    ||| b == 0x2b
    ||| b == 0x2f
    ||| b == 0x3d
}

/// `text` could be base64: it is not empty, at most [`BASE64_MAX_LEN`] bytes
/// long and made of base64 characters and padding only.
pub open spec fn likely_base64(text: Seq<u8>) -> bool {
    &&& 0 < text.len() <= BASE64_MAX_LEN
    &&& forall|i: int| 0 <= i < text.len() ==> is_base64_byte(#[trigger] text[i])
}

/// `text` starts with `0x` or `0X`.
pub open spec fn has_hex_prefix(text: Seq<u8>) -> bool {
    text.len() >= 2 && text[0] == 0x30 && (text[1] == 0x78 || text[1] == 0x58)
}

/// The salt that the string with the UTF-8 bytes `text` stands for, where
/// base64 is tried on strings longer than `floor` bytes.
pub open spec fn interpreted_salt(text: Seq<u8>, floor: nat) -> Seq<u8> {
    if text.len() == 0 {
        Seq::empty()
    } else if has_hex_prefix(text) {
        let digits = text.subrange(2, text.len() as int);
        if is_hex(digits) {
            hex_decoded(digits)
        } else {
            text
        }
    } else if likely_base64(text) && text.len() > floor {
        match base64_decoded(text) {
            Some(bytes) => bytes,
            None => text,
        }
    } else {
        text
    }
}

/// The salt that the string with the UTF-8 bytes `text` stands for when it
/// is the salt as given.
pub open spec fn decoded_salt(text: Seq<u8>) -> Seq<u8> {
    interpreted_salt(text, BASE64_MIN_LEN as nat)
}

/// Calls `hex::decode`. It succeeds on an even number of hexadecimal digits
/// and on nothing else, and then yields one byte for each pair of digits,
/// the first digit of a pair being the high half of the byte.
#[verifier::external_body]
fn hex_decode(text: &[u8]) -> (decoded: Result<Vec<u8>, hex::FromHexError>)
    ensures
        decoded is Ok <==> is_hex(text@),
        decoded matches Ok(bytes) ==> bytes@ == hex_decoded(text@),
{
    hex::decode(text)
}

/// Calls `decode` of `base64::engine::general_purpose::STANDARD`. Its result
/// is a function of the text, named [`base64_decoded`].
#[verifier::external_body]
fn base64_decode(text: &[u8]) -> (decoded: Result<Vec<u8>, base64::DecodeError>)
    ensures
        match decoded {
            Ok(bytes) => base64_decoded(text@) == Some(bytes@),
            Err(_) => base64_decoded(text@) is None,
        },
{
    base64::engine::general_purpose::STANDARD.decode(text)
}

/// Decodes hexadecimal digits. Text that is not an even number of
/// hexadecimal digits fails with [`DecryptionError::Hex`].
pub fn decode_hex(text: &[u8]) -> (decoded: Result<Vec<u8>, DecryptionError>)
    ensures
        match decoded {
            Ok(bytes) => is_hex(text@) && bytes@ == hex_decoded(text@),
            Err(e) => !is_hex(text@) && e is Hex,
        },
{
    match hex_decode(text) {
        Ok(bytes) => Ok(bytes),
        Err(e) => Err(DecryptionError::Hex(e)),
    }
}

/// Decodes base64 in the standard alphabet. Text that is not valid base64
/// fails with [`DecryptionError::Base64`].
pub fn decode_base64(text: &[u8]) -> (decoded: Result<Vec<u8>, DecryptionError>)
    ensures
        match decoded {
            Ok(bytes) => base64_decoded(text@) == Some(bytes@),
            Err(e) => base64_decoded(text@) is None && e is Base64,
        },
{
    match base64_decode(text) {
        Ok(bytes) => Ok(bytes),
        Err(e) => Err(DecryptionError::Base64(e)),
    }
}

/// Whether `b` is a letter, a digit, `+`, `/` or `=`.
fn base64_byte(b: u8) -> (yes: bool)
    ensures
        yes == is_base64_byte(b),
{
    (0x41 <= b && b <= 0x5a) || (0x61 <= b && b <= 0x7a) || (0x30 <= b && b <= 0x39) || b == 0x2b
        || b == 0x2f || b == 0x3d
}

/// Whether the bytes `text` could be base64.
fn likely_base64_bytes(text: &[u8]) -> (likely: bool)
    ensures
        likely == likely_base64(text@),
{
    if text.len() == 0 || text.len() > BASE64_MAX_LEN {
        return false;
    }
    let mut i: usize = 0;
    while i < text.len()
        invariant
            i <= text.len(),
            0 < text@.len() <= BASE64_MAX_LEN,
            forall|j: int| 0 <= j < i ==> is_base64_byte(#[trigger] text@[j]),
        decreases text.len() - i,
    {
        if !base64_byte(text[i]) {
            return false;
        }
        i = i + 1;
    }
    true
}

/// Whether a string looks like base64: it is not empty, at most 100 bytes
/// long, and each of its characters is a letter, a digit, `+`, `/` or `=`.
/// Those characters are one byte each, so the test reads the UTF-8 bytes of
/// the string.
pub fn is_likely_base64(s: &str) -> (likely: bool)
    ensures
        likely == likely_base64(s.spec_bytes()),
{
    likely_base64_bytes(s.as_bytes())
}

/// Decodes the UTF-8 bytes of a salt string into the salt that it stands
/// for: nothing for the empty string, the bytes behind a `0x` or `0X` prefix
/// where they are hexadecimal, the base64-decoded bytes of a string that
/// looks like base64 and is longer than `floor` bytes, and else the bytes of
/// the string itself.
pub fn interpret_salt(text: &[u8], floor: usize) -> (salt: Vec<u8>)
    ensures
        salt@ == interpreted_salt(text@, floor as nat),
{
    if text.len() == 0 {
        return Vec::new();
    }
    if text.len() >= 2 && text[0] == 0x30 && (text[1] == 0x78 || text[1] == 0x58) {
        return match decode_hex(slice_subrange(text, 2, text.len())) {
            Ok(bytes) => bytes,
            Err(_) => slice_to_vec(text),
        };
    }
    if likely_base64_bytes(text) && text.len() > floor {
        return match decode_base64(text) {
            Ok(bytes) => bytes,
            Err(_) => slice_to_vec(text),
        };
    }
    slice_to_vec(text)
}

/// Decodes the salt as given: a salt string is read as [`interpret_salt`]
/// reads it, base64 being tried on strings longer than
/// [`BASE64_MIN_LEN`] bytes only.
pub fn decode_salt(salt: &str) -> (bytes: Vec<u8>)
    ensures
        bytes@ == decoded_salt(salt.spec_bytes()),
{
    interpret_salt(salt.as_bytes(), BASE64_MIN_LEN)
}

} // verus!
