//! Decoding bit vectors into integers and affine-mapped field values.
//!
//! Bits are little-endian: the leftmost bit is the least significant.

use vstd::arithmetic::power2::pow2;
use vstd::prelude::*;

verus! {

/// The little-endian integer value of a bit sequence: bit 0 is the least
/// significant.
pub open spec fn le_int(bits: Seq<bool>) -> nat
    decreases bits.len(),
{
    if bits.len() == 0 {
        0
    } else {
        (if bits[0] {
            1nat
        } else {
            0nat
        }) + 2 * le_int(bits.drop_first())
    }
}

/// A bit sequence of length `n` decodes to less than `2^n`.
pub proof fn lemma_le_int_bound(bits: Seq<bool>)
    ensures
        le_int(bits) < pow2(bits.len()),
    decreases bits.len(),
{
    vstd::arithmetic::power2::lemma_pow2_pos(bits.len());
    if bits.len() > 0 {
        lemma_le_int_bound(bits.drop_first());
        vstd::arithmetic::power2::lemma_pow2_unfold(bits.len());
    }
}

/// The affine decoding of integer `n` out of `2^bits_len - 1` steps into
/// `[start, end]`: `start` when there are no bits, else
/// `start + (end - start) * n / (2^bits_len - 1)`, rounding down.
pub open spec fn affine_decode(start: int, end: int, bits_len: nat, n: nat) -> int {
    if bits_len == 0 {
        start
    } else {
        start + ((end - start) * n) / (pow2(bits_len) - 1)
    }
}

/// Reduces bits to their base-10 integer value. Leftmost is least
/// significant.
#[derive(Clone, Copy, Debug, PartialEq, Eq, Structural)]
pub struct ToIntLE {
}

impl ToIntLE {
    pub fn new() -> (r: Self)
        ensures
            r == (ToIntLE {  }),
    {
        ToIntLE {  }
    }

    /// The little-endian value of `bits[lo..hi]`.
    pub fn decode(&self, bits: &Vec<bool>, lo: usize, hi: usize) -> (r: u64)
        requires
            lo <= hi <= bits@.len(),
            hi - lo <= 63,
        ensures
            r == le_int(bits@.subrange(lo as int, hi as int)),
    {
        proof {
            assert(bits@.subrange(hi as int, hi as int) =~= Seq::<bool>::empty());
            vstd::arithmetic::power2::lemma2_to64();
        }
        let mut acc: u64 = 0;
        let mut j: usize = hi;
        while j > lo
            invariant
                lo <= j <= hi <= bits@.len(),
                hi - lo <= 63,
                acc == le_int(bits@.subrange(j as int, hi as int)),
                acc < pow2((hi - j) as nat),
            decreases j - lo,
        {
            proof {
                vstd::arithmetic::power2::lemma2_to64();
                vstd::arithmetic::power2::lemma2_to64_rest();
                if ((hi - j) as nat) < 62 {
                    vstd::arithmetic::power2::lemma_pow2_strictly_increases(
                        (hi - j) as nat,
                        62,
                    );
                }
                assert(acc < pow2(62));
                vstd::arithmetic::power2::lemma_pow2_unfold((hi - j + 1) as nat);
                assert(bits@.subrange(j - 1, hi as int).drop_first() =~= bits@.subrange(
                    j as int,
                    hi as int,
                ));
            }
            j -= 1;
            acc = 2 * acc + (if bits[j] {
                1
            } else {
                0
            });
        }
        acc
    }
}

/// Maps bits to a value in the closed integer range `[start, end]` by
/// little-endian decoding followed by an affine map; with no bits the value
/// is pinned to `start`.
#[derive(Clone, Copy, Debug, PartialEq, Eq, Structural)]
pub struct ToFracLE {
    pub start: usize,
    pub end: usize,
    pub bits_len: usize,
    pub to_int: ToIntLE,
}

impl ToFracLE {
    pub fn new(start: usize, end: usize, bits_len: usize) -> (r: Self)
        requires
            start <= end,
            bits_len <= 63,
        ensures
            r == (ToFracLE { start, end, bits_len, to_int: ToIntLE {  } }),
    {
        ToFracLE { start, end, bits_len, to_int: ToIntLE::new() }
    }

    /// Decode `bits[lo..hi]` into `[start, end]`.
    pub fn decode(&self, bits: &Vec<bool>, lo: usize, hi: usize) -> (r: usize)
        requires
            self.start <= self.end,
            self.bits_len <= 63,
            lo <= hi <= bits@.len(),
            hi - lo == self.bits_len,
        ensures
            r == affine_decode(
                self.start as int,
                self.end as int,
                self.bits_len as nat,
                le_int(bits@.subrange(lo as int, hi as int)),
            ),
            self.start <= r <= self.end,
    {
        if self.bits_len == 0 {
            return self.start;
        }
        let n = self.to_int.decode(bits, lo, hi);
        // 2^bits_len, computed by repeated doubling.
        proof {
            vstd::arithmetic::power2::lemma2_to64();
        }
        let mut p: u64 = 1;
        let mut k: usize = 0;
        while k < self.bits_len
            invariant
                k <= self.bits_len <= 63,
                p == pow2(k as nat),
            decreases self.bits_len - k,
        {
            proof {
                vstd::arithmetic::power2::lemma2_to64();
                vstd::arithmetic::power2::lemma2_to64_rest();
                if ((k as nat)) < 62 {
                    vstd::arithmetic::power2::lemma_pow2_strictly_increases(k as nat, 62);
                }
                assert(p <= pow2(62));
                vstd::arithmetic::power2::lemma_pow2_unfold((k + 1) as nat);
            }
            p = 2 * p;
            k += 1;
        }
        proof {
            vstd::arithmetic::power2::lemma_pow2_pos(self.bits_len as nat);
            vstd::arithmetic::power2::lemma_pow2_unfold(self.bits_len as nat);
            vstd::arithmetic::power2::lemma_pow2_pos((self.bits_len - 1) as nat);
        }
        let denom = p - 1;
        proof {
            lemma_le_int_bound(bits@.subrange(lo as int, hi as int));
            vstd::arithmetic::power2::lemma_pow2_pos(self.bits_len as nat);
        }
        let span = self.end - self.start;
        proof {
            assert((span as u128) * (n as u128) <= u128::MAX) by (nonlinear_arith)
                requires
                    (span as u128) < 0x1_0000_0000_0000_0000u128,
                    (n as u128) < 0x1_0000_0000_0000_0000u128,
            ;
        }
        let wide = (span as u128) * (n as u128);
        let q = wide / (denom as u128);
        proof {
            let spanl = span as int;
            let nl = n as int;
            let dl = denom as int;
            assert(spanl * nl <= spanl * dl) by (nonlinear_arith)
                requires
                    0 <= spanl,
                    0 <= nl <= dl,
            ;
            vstd::arithmetic::div_mod::lemma_div_is_ordered(spanl * nl, spanl * dl, dl);
            vstd::arithmetic::div_mod::lemma_div_multiples_vanish(spanl, dl);
            assert(wide / (denom as u128) == (spanl * nl) / dl) by (nonlinear_arith)
                requires
                    wide == spanl * nl,
                    dl == denom as u128,
                    dl > 0,
            ;
            vstd::arithmetic::div_mod::lemma_div_pos_is_pos(spanl * nl, dl);
            vstd::arithmetic::mul::lemma_mul_nonnegative(spanl, nl);
        }
        self.start + (q as usize)
    }
}

} // verus!
