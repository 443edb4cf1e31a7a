//! Per-chunk nonces: how the nonce of one chunk follows from that of the
//! chunk before it.
//!
//! A nonce is 24 bytes. Read as a number in base 256 it is incremented by one
//! from chunk to chunk; the rules differ in which end of the array holds the
//! least significant byte and in how many bytes take part.

use vstd::arithmetic::div_mod::{
    lemma_add_mod_noop_right, lemma_mod_breakdown, lemma_mod_mod, lemma_mod_twice, lemma_small_mod,
    lemma_truncate_middle,
};
use vstd::prelude::*;

verus! {

/// Number of bytes in a nonce.
pub const NONCE_SIZE: usize = 24;

/// Number of trailing bytes that form the counter of
/// [`NonceRule::TrailingCounterIncrement`].
pub const COUNTER_WIDTH: usize = 8;

/// How the nonce of a chunk is derived from the nonce of the chunk before it.
#[derive(Clone, Copy, Debug, PartialEq, Eq, Structural)]
pub enum NonceRule {
    /// The whole nonce is a little-endian number: byte 0 is incremented
    /// first and carries into byte 1, and so on.
    LittleEndianIncrement,
    /// The whole nonce is a big-endian number: byte 23 is incremented first
    /// and carries into byte 22, and so on.
    BigEndianIncrement,
    /// The last eight bytes are a little-endian counter; the first sixteen
    /// bytes never change.
    TrailingCounterIncrement,
}

/// `256^n`, the number of values that `n` bytes can take.
pub open spec fn radix_pow(n: nat) -> nat
    decreases n,
{
    if n == 0 {
        1
    } else {
        256 * radix_pow((n - 1) as nat)
    }
}

/// The number that `s` denotes when byte 0 is the least significant.
pub open spec fn le_value(s: Seq<u8>) -> nat
    decreases s.len(),
{
    if s.len() == 0 {
        0
    } else {
        s[0] as nat + 256 * le_value(s.drop_first())
    }
}

/// The `n` bytes that denote `v` modulo `256^n`, least significant first.
pub open spec fn le_bytes(v: nat, n: nat) -> Seq<u8>
    decreases n,
{
    if n == 0 {
        Seq::empty()
    } else {
        seq![(v % 256) as u8] + le_bytes(v / 256, (n - 1) as nat)
    }
}

/// The bytes that denote one more than `s` does, little-endian, wrapping to
/// zero after the largest value.
pub open spec fn le_successor(s: Seq<u8>) -> Seq<u8> {
    le_bytes((le_value(s) + 1) % radix_pow(s.len()), s.len())
}

/// The bytes that denote one more than `s` does, big-endian, wrapping to
/// zero after the largest value.
pub open spec fn be_successor(s: Seq<u8>) -> Seq<u8> {
    le_successor(s.reverse()).reverse()
}

/// `s` with its last `width` bytes replaced by their little-endian successor.
pub open spec fn trailing_successor(s: Seq<u8>, width: int) -> Seq<u8> {
    s.subrange(0, s.len() - width) + le_successor(s.subrange(s.len() - width, s.len() as int))
}

/// The nonce that follows `nonce` under `rule`.
pub open spec fn advanced(nonce: Seq<u8>, rule: NonceRule) -> Seq<u8> {
    match rule {
        NonceRule::LittleEndianIncrement => le_successor(nonce),
        NonceRule::BigEndianIncrement => be_successor(nonce),
        NonceRule::TrailingCounterIncrement => trailing_successor(nonce, COUNTER_WIDTH as int),
    }
}

/// The nonce reached from `nonce` by advancing `steps` times under `rule`.
pub open spec fn advanced_by(nonce: Seq<u8>, rule: NonceRule, steps: nat) -> Seq<u8>
    decreases steps,
{
    if steps == 0 {
        nonce
    } else {
        advanced(advanced_by(nonce, rule, (steps - 1) as nat), rule)
    }
}

/// `t` is `s` after a carry that ran through the first `k` bytes: those were
/// all 255 and are now 0, byte `k` (if there is one) went up by one, and the
/// bytes after it are unchanged.
pub open spec fn carried(s: Seq<u8>, t: Seq<u8>, k: int) -> bool {
    &&& t.len() == s.len()
    &&& 0 <= k <= s.len()
    &&& forall|j: int| 0 <= j < k ==> s[j] == 255 && t[j] == 0
    &&& k < s.len() ==> s[k] < 255 && t[k] == s[k] + 1
    &&& forall|j: int| k < j < s.len() ==> t[j] == s[j]
}

/// A sequence of `n` bytes denotes a number below `256^n`.
pub proof fn lemma_le_value_bound(s: Seq<u8>)
    ensures
        le_value(s) < radix_pow(s.len()),
    decreases s.len(),
{
    if s.len() > 0 {
        lemma_le_value_bound(s.drop_first());
    }
}

/// `le_bytes` yields as many bytes as it is asked for.
pub proof fn lemma_le_bytes_len(v: nat, n: nat)
    ensures
        le_bytes(v, n).len() == n,
    decreases n,
{
    if n > 0 {
        lemma_le_bytes_len(v / 256, (n - 1) as nat);
    }
}

/// Encoding the number that `s` denotes gives `s` back.
pub proof fn lemma_le_bytes_of_value(s: Seq<u8>)
    ensures
        le_bytes(le_value(s), s.len()) == s,
    decreases s.len(),
{
    if s.len() > 0 {
        let rest = s.drop_first();
        lemma_le_bytes_of_value(rest);
        let v = le_value(s);
        assert(v % 256 == s[0] as nat);
        assert(v / 256 == le_value(rest));
        assert(le_bytes(v, s.len()) =~= s);
    } else {
        assert(le_bytes(le_value(s), s.len()) =~= s);
    }
}

/// Decoding the `n` bytes that encode `v` gives `v` modulo `256^n`.
pub proof fn lemma_le_value_of_bytes(v: nat, n: nat)
    ensures
        le_value(le_bytes(v, n)) == v % radix_pow(n),
    decreases n,
{
    if n > 0 {
        let m = (n - 1) as nat;
        lemma_le_value_of_bytes(v / 256, m);
        lemma_le_bytes_len(v / 256, m);
        lemma_radix_pow_positive(m);
        let b = le_bytes(v, n);
        assert(b.drop_first() =~= le_bytes(v / 256, m));
        assert(b[0] as nat == v % 256);
        lemma_mod_breakdown(v as int, 256, radix_pow(m) as int);
    }
}

/// `256^n` is positive.
pub proof fn lemma_radix_pow_positive(n: nat)
    ensures
        radix_pow(n) > 0,
    decreases n,
{
    if n > 0 {
        lemma_radix_pow_positive((n - 1) as nat);
    }
}

/// A carry through the low bytes adds one to the number, modulo `256^n`.
proof fn lemma_carried_value(s: Seq<u8>, t: Seq<u8>, k: int)
    requires
        carried(s, t, k),
    ensures
        le_value(t) == (le_value(s) + 1) % radix_pow(s.len()),
    decreases s.len(),
{
    if s.len() == 0 {
    } else {
        let m = (s.len() - 1) as nat;
        let s1 = s.drop_first();
        let t1 = t.drop_first();
        lemma_radix_pow_positive(m);
        lemma_le_value_bound(s1);
        if k == 0 {
            assert(t1 =~= s1);
            assert(le_value(t) == le_value(s) + 1);
            lemma_small_mod((le_value(s) + 1) as nat, radix_pow(s.len()));
        } else {
            assert(carried(s1, t1, k - 1)) by {
                assert forall|j: int| 0 <= j < k - 1 implies s1[j] == 255 && t1[j] == 0 by {
                    assert(s1[j] == s[j + 1] && t1[j] == t[j + 1]);
                }
                assert forall|j: int| k - 1 < j < s1.len() implies t1[j] == s1[j] by {
                    assert(s1[j] == s[j + 1] && t1[j] == t[j + 1]);
                }
                if k - 1 < s1.len() {
                    assert(s1[k - 1] == s[k] && t1[k - 1] == t[k]);
                }
            }
            lemma_carried_value(s1, t1, k - 1);
            lemma_truncate_middle((le_value(s1) + 1) as int, 256, radix_pow(m) as int);
            assert(le_value(s) + 1 == 256 * (le_value(s1) + 1));
            assert(le_value(t) == 256 * le_value(t1));
        }
    }
}

/// A carry through the low bytes is the little-endian successor.
pub proof fn lemma_carried_is_successor(s: Seq<u8>, t: Seq<u8>, k: int)
    requires
        carried(s, t, k),
    ensures
        t == le_successor(s),
{
    lemma_carried_value(s, t, k);
    lemma_le_bytes_of_value(t);
}

/// Advancing a nonce `steps` times under the little-endian rule counts: the
/// number that the nonce denotes goes up by `steps`, modulo `256^n` for a
/// nonce of `n` bytes, and the nonce keeps its length.
pub proof fn lemma_le_advance_counts(nonce: Seq<u8>, steps: nat)
    ensures
        advanced_by(nonce, NonceRule::LittleEndianIncrement, steps).len() == nonce.len(),
        le_value(advanced_by(nonce, NonceRule::LittleEndianIncrement, steps)) == (le_value(nonce)
            + steps) % radix_pow(nonce.len()),
    decreases steps,
{
    let modulus = radix_pow(nonce.len());
    lemma_radix_pow_positive(nonce.len());
    if steps == 0 {
        lemma_le_value_bound(nonce);
        lemma_small_mod(le_value(nonce), modulus);
    } else {
        let before = advanced_by(nonce, NonceRule::LittleEndianIncrement, (steps - 1) as nat);
        lemma_le_advance_counts(nonce, (steps - 1) as nat);
        let next = (le_value(before) + 1) % modulus;
        lemma_le_bytes_len(next, nonce.len());
        lemma_le_value_of_bytes(next, nonce.len());
        lemma_mod_twice((le_value(before) + 1) as int, modulus as int);
        lemma_add_mod_noop_right(1, (le_value(nonce) + steps - 1) as int, modulus as int);
    }
}

/// Advancing 256 times under the little-endian rule from a nonce whose
/// first byte is 0 carries into the second byte: the first byte is 0 again
/// and the second byte has gone up by one, wrapping to 0 after 255.
pub proof fn lemma_le_carry_after_256(nonce: Seq<u8>)
    requires
        nonce.len() == NONCE_SIZE,
        nonce[0] == 0,
    ensures
        advanced_by(nonce, NonceRule::LittleEndianIncrement, 256).len() == NONCE_SIZE,
        advanced_by(nonce, NonceRule::LittleEndianIncrement, 256)[0] == 0,
        advanced_by(nonce, NonceRule::LittleEndianIncrement, 256)[1] == (nonce[1] + 1) % 256,
{
    let after = advanced_by(nonce, NonceRule::LittleEndianIncrement, 256);
    lemma_le_advance_counts(nonce, 256);
    lemma_le_bytes_of_value(after);
    let rest = nonce.drop_first();
    let high = radix_pow(22);
    lemma_radix_pow_positive(22);
    assert(radix_pow(24) == 256 * radix_pow(23) && radix_pow(23) == 256 * high);
    let low = le_value(rest);
    assert(le_value(nonce) + 256 == 256 * (low + 1));
    lemma_truncate_middle((low + 1) as int, 256, radix_pow(23) as int);
    let value = le_value(after);
    assert(value == 256 * ((low + 1) % radix_pow(23)));
    assert(value % 256 == 0);
    assert(value / 256 == (low + 1) % radix_pow(23));
    lemma_mod_mod((low + 1) as int, 256, high as int);
    assert(low == rest[0] as nat + 256 * le_value(rest.drop_first()));
    assert((low + 1) % 256 == (nonce[1] as nat + 1) % 256);
    let bytes = le_bytes(value, 24);
    assert(bytes[0] == (value % 256) as u8);
    let tail = le_bytes(value / 256, 23);
    assert(bytes[1] == tail[0]);
    assert(tail[0] == ((value / 256) % 256) as u8);
}

/// Reversing a sequence twice gives it back.
proof fn lemma_reverse_twice(s: Seq<u8>)
    ensures
        s.reverse().reverse() == s,
{
    assert(s.reverse().reverse() =~= s);
}

/// `nonce` with one added to its bytes `start..24`, read as a little-endian
/// number; the bytes before `start` are kept.
fn carry_upward(nonce: [u8; 24], start: usize) -> (next: [u8; 24])
    requires
        start <= 24,
    ensures
        next@ == nonce@.subrange(0, start as int) + le_successor(nonce@.subrange(start as int, 24)),
{
    let mut next = nonce;
    let mut i: usize = start;
    while i < 24 && next[i] == 255
        invariant
            start <= i <= 24,
            forall|j: int| #![trigger nonce@[j]] start <= j < i ==> nonce@[j] == 255 && next@[j] == 0,
            forall|j: int|
                #![trigger nonce@[j]]
                0 <= j < start || i <= j < 24 ==> next@[j] == nonce@[j],
        decreases 24 - i,
    {
        let ghost prev = next@;
        next[i] = 0;
        assert(next@ == prev.update(i as int, 0u8));
        assert forall|j: int| start <= j < i implies next@[j] == 0 by {
            assert(nonce@[j] == 255 ==> prev[j] == 0);
        }
        i = i + 1;
    }
    if i < 24 {
        let ghost prev = next@;
        next[i] = next[i] + 1;
        assert(next@ == prev.update(i as int, (nonce@[i as int] + 1) as u8));
    }
    proof {
        let s = nonce@.subrange(start as int, 24);
        let t = next@.subrange(start as int, 24);
        let k = i - start;
        assert forall|j: int| 0 <= j < k implies s[j] == 255 && t[j] == 0 by {
            assert(nonce@[start + j] == 255);
        }
        assert forall|j: int| k < j < s.len() implies t[j] == s[j] by {
            assert(next@[start + j] == nonce@[start + j]);
        }
        assert(carried(s, t, k));
        lemma_carried_is_successor(s, t, k);
        assert(next@ =~= nonce@.subrange(0, start as int) + t);
    }
    next
}

/// `nonce` with one added to it, read as a big-endian number.
fn carry_downward(nonce: [u8; 24]) -> (next: [u8; 24])
    ensures
        next@ == be_successor(nonce@),
{
    let mut next = nonce;
    let mut i: usize = 24;
    while i > 0 && next[i - 1] == 255
        invariant
            i <= 24,
            forall|j: int| #![trigger nonce@[j]] i <= j < 24 ==> nonce@[j] == 255 && next@[j] == 0,
            forall|j: int| #![trigger nonce@[j]] 0 <= j < i ==> next@[j] == nonce@[j],
        decreases i,
    {
        let ghost prev = next@;
        next[i - 1] = 0;
        assert(next@ == prev.update(i - 1, 0u8));
        assert forall|j: int| i <= j < 24 implies next@[j] == 0 by {
            assert(nonce@[j] == 255 ==> prev[j] == 0);
        }
        i = i - 1;
    }
    if i > 0 {
        let ghost prev = next@;
        next[i - 1] = next[i - 1] + 1;
        assert(next@ == prev.update(i - 1, (nonce@[i - 1] + 1) as u8));
    }
    proof {
        let s = nonce@.reverse();
        let t = next@.reverse();
        let k = 24 - i;
        assert forall|j: int| 0 <= j < 24 implies s[j] == nonce@[23 - j] && t[j] == next@[23 - j] by {}
        assert forall|j: int| 0 <= j < k implies s[j] == 255 && t[j] == 0 by {
            assert(nonce@[23 - j] == 255);
        }
        assert forall|j: int| k < j < s.len() implies t[j] == s[j] by {
            assert(next@[23 - j] == nonce@[23 - j]);
        }
        assert(carried(s, t, k));
        lemma_carried_is_successor(s, t, k);
        lemma_reverse_twice(next@);
    }
    next
}

/// Advances `nonce` under [`NonceRule::LittleEndianIncrement`]: the 24 bytes
/// are one little-endian number, which goes up by one modulo `256^24`.
pub fn increment_nonce(nonce: &mut [u8; 24])
    ensures
        final(nonce)@ == le_successor(old(nonce)@),
{
    let ghost before = nonce@;
    *nonce = carry_upward(*nonce, 0);
    proof {
        assert(before.subrange(0, 24) =~= before);
        assert(before.subrange(0, 0) + le_successor(before) =~= le_successor(before));
    }
}

/// Advances `nonce` under [`NonceRule::BigEndianIncrement`]: the 24 bytes
/// are one big-endian number, which goes up by one modulo `256^24`.
pub fn increment_nonce_be(nonce: &mut [u8; 24])
    ensures
        final(nonce)@ == be_successor(old(nonce)@),
{
    *nonce = carry_downward(*nonce);
}

/// Advances `nonce` under [`NonceRule::TrailingCounterIncrement`]: the last
/// eight bytes are a little-endian counter, which goes up by one modulo
/// `2^64`; the first sixteen bytes stay as they are.
pub fn increment_nonce_64bit(nonce: &mut [u8; 24])
    ensures
        final(nonce)@ == trailing_successor(old(nonce)@, 8),
{
    *nonce = carry_upward(*nonce, 16);
}

/// The nonce of the chunk that follows the one encrypted under `nonce`.
pub fn advance(nonce: &[u8; 24], rule: NonceRule) -> (next: [u8; 24])
    ensures
        next@ == advanced(nonce@, rule),
{
    let mut next = *nonce;
    match rule {
        NonceRule::LittleEndianIncrement => increment_nonce(&mut next),
        NonceRule::BigEndianIncrement => increment_nonce_be(&mut next),
        NonceRule::TrailingCounterIncrement => increment_nonce_64bit(&mut next),
    }
    next
}

} // verus!
