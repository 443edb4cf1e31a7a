//! Key derivation: from password, salt and cost parameters to the 32-byte
//! key of a container.
//!
//! The derivation itself is scrypt, computed by the `scrypt` crate. This
//! module decides which cost parameters are handed to it and names what it
//! returns.

use vstd::arithmetic::power2::{lemma2_to64, lemma2_to64_rest, lemma_pow2_strictly_increases, pow2};
use vstd::bits::lemma_u64_shl_is_mul;
use vstd::layout::signed_int_min_max_values;
use vstd::prelude::*;

verus! {

/// Number of bytes in a derived key.
pub const KEY_SIZE: usize = 32;

/// The cost of one key derivation. The derived key always has
/// [`KEY_SIZE`] bytes.
#[derive(Clone, Copy, Debug, PartialEq, Eq, Structural)]
pub struct CostParameters {
    /// Base-2 logarithm of the CPU and memory cost `N`.
    pub log2_n: u8,
    /// Block size.
    pub r: u32,
    /// Parallelism.
    pub p: u32,
}

/// The key that scrypt derives from `password` and `salt` at cost
/// `(log2_n, r, p)`, for parameters that scrypt accepts.
pub uninterp spec fn scrypt_key(password: Seq<u8>, salt: Seq<u8>, log2_n: u8, r: u32, p: u32) -> Seq<u8>;

/// The canonical cost of the container format: `N = 2^14`, `r = 8`, `p = 1`.
pub open spec fn canonical_cost() -> CostParameters {
    CostParameters { log2_n: 14, r: 8, p: 1 }
}

impl CostParameters {
    /// The working memory of the derivation, `128 * r * N` bytes for the
    /// table and `128 * r * p` bytes for the blocks, can be allocated at all:
    /// neither exceeds the largest size of an allocation.
    pub open spec fn fits_memory(self) -> bool {
        &&& 128 * self.r * pow2(self.log2_n as nat) <= isize::MAX
        &&& 128 * self.r * self.p <= isize::MAX
    }

    /// The ranges that scrypt itself asks of its parameters.
    pub open spec fn in_range(self) -> bool {
        &&& self.r > 0
        &&& self.p > 0
        &&& self.log2_n < 16 * self.r
        &&& self.r * self.p < 0x4000_0000
    }

    /// A key can be derived at this cost.
    pub open spec fn valid(self) -> bool {
        self.fits_memory() && self.in_range()
    }

    /// The canonical cost of the container format, at which a key can
    /// always be derived.
    pub fn canonical() -> (c: CostParameters)
        ensures
            c == canonical_cost(),
            c.valid(),
    {
        let c = CostParameters { log2_n: 14, r: 8, p: 1 };
        proof {
            lemma2_to64();
            lemma_largest_allocation();
            assert(128 * c.r * pow2(c.log2_n as nat) == 0x100_0000) by (nonlinear_arith)
                requires
                    c.r == 8,
                    pow2(c.log2_n as nat) == 0x4000,
            ;
        }
        c
    }

    /// Whether the working memory of the derivation can be allocated at all.
    pub fn has_fitting_memory(&self) -> (fits: bool)
        ensures
            fits == self.fits_memory(),
    {
        let largest: u128 = isize::MAX as u128;
        proof {
            lemma2_to64();
            lemma2_to64_rest();
            lemma_largest_allocation();
        }
        if self.log2_n >= 56 {
            proof {
                if self.r == 0 {
                    assert(128 * self.r * pow2(self.log2_n as nat) == 0) by (nonlinear_arith)
                        requires
                            self.r == 0,
                    ;
                    assert(128 * self.r * self.p == 0) by (nonlinear_arith)
                        requires
                            self.r == 0,
                    ;
                } else {
                    if self.log2_n > 56 {
                        lemma_pow2_strictly_increases(56, self.log2_n as nat);
                    }
                    assert(128 * self.r * pow2(self.log2_n as nat) >= 128 * pow2(56)) by (nonlinear_arith)
                        requires
                            self.r >= 1,
                            pow2(self.log2_n as nat) >= pow2(56),
                    ;
                }
            }
            return self.r == 0;
        }
        let n: u64 = 1u64 << (self.log2_n as u64);
        proof {
            if self.log2_n < 55 {
                lemma_pow2_strictly_increases(self.log2_n as nat, 55);
            }
            lemma_u64_shl_is_mul(1, self.log2_n as u64);
        }
        let block: u128 = 128 * (self.r as u128);
        assert(block * n == 128 * self.r * pow2(self.log2_n as nat)) by (nonlinear_arith)
            requires
                block == 128 * self.r,
                n == pow2(self.log2_n as nat),
        ;
        assert(block * n <= 0x80_0000_0000 * 0x80_0000_0000_0000) by (nonlinear_arith)
            requires
                block <= 0x80_0000_0000,
                n <= 0x80_0000_0000_0000,
        ;
        assert(block * self.p == 128 * self.r * self.p) by (nonlinear_arith)
            requires
                block == 128 * self.r,
        ;
        assert(block * self.p <= 0x80_0000_0000 * 0x1_0000_0000) by (nonlinear_arith)
            requires
                block <= 0x80_0000_0000,
                self.p <= 0x1_0000_0000,
        ;
        block * (n as u128) <= largest && block * (self.p as u128) <= largest
    }
}

/// The largest size of an allocation is `2^31 - 1` or `2^63 - 1` bytes.
proof fn lemma_largest_allocation()
    ensures
        isize::MAX == 0x7fff_ffff || isize::MAX == 0x7fff_ffff_ffff_ffff,
{
    lemma2_to64();
    lemma2_to64_rest();
    signed_int_min_max_values();
    assert(isize::BITS == 32 || isize::BITS == 64);
}

/// Calls `scrypt::scrypt` with the parameters `scrypt::Params::new(log2_n,
/// r, p, 32)` and a 32-byte output. The parameters are accepted exactly when
/// they are in scrypt's ranges; the key is then a function of the arguments,
/// named [`scrypt_key`]. Parameters whose working memory exceeds the largest
/// allocation are left out: for those the call panics.
#[verifier::external_body]
fn scrypt_derive(password: &[u8], salt: &[u8], params: &CostParameters) -> (key: Option<[u8; 32]>)
    requires
        params.fits_memory(),
    ensures
        key is Some <==> params.in_range(),
        key matches Some(k) ==> k@ == scrypt_key(password@, salt@, params.log2_n, params.r, params.p),
{
    let accepted = scrypt::Params::new(params.log2_n, params.r, params.p, 32).ok()?;
    let mut key = [0u8; 32];
    scrypt::scrypt(password, salt, &accepted, &mut key).ok()?;
    Some(key)
}

/// Calls `sodiumoxide::utils::memzero`, which overwrites every byte of its
/// argument with zero.
#[verifier::external_body]
fn memzero(key: &mut [u8; 32])
    ensures
        final(key)@ == Seq::new(32, |i: int| 0u8),
{
    sodiumoxide::utils::memzero(key)
}

/// The key derived from `password` and `salt` at cost `params`, or `None`
/// where no key can be derived at that cost.
pub open spec fn derived_key(password: Seq<u8>, salt: Seq<u8>, params: CostParameters) -> Option<Seq<u8>> {
    if params.valid() {
        Some(scrypt_key(password, salt, params.log2_n, params.r, params.p))
    } else {
        None
    }
}

/// Derives the key of a container. The same password, salt and cost always
/// give the same key; a cost at which no key can be derived gives `None`.
pub fn derive_key(password: &[u8], salt: &[u8], params: &CostParameters) -> (key: Option<[u8; 32]>)
    ensures
        match key {
            Some(k) => derived_key(password@, salt@, *params) == Some(k@),
            None => derived_key(password@, salt@, *params) is None,
        },
{
    if params.has_fitting_memory() {
        scrypt_derive(password, salt, params)
    } else {
        None
    }
}

/// Overwrites a key with zeros once it is no longer needed.
pub fn wipe_key(key: &mut [u8; 32])
    ensures
        forall|i: int| 0 <= i < 32 ==> final(key)@[i] == 0,
{
    memzero(key);
}

} // verus!
