//! The fidelity checksum: the weighted payload sum, its 32-bit trailer and the tolerance.
use vstd::arithmetic::power2::{lemma2_to64, lemma_pow2_unfold, pow2};
use vstd::prelude::*;

verus! {

/// The checksum accumulator wraps at this modulus (it is 32 bits wide).
pub const CHECK_MODULUS: u64 = 0x1_0000_0000;

/// Number of checksum bits at the end of an encoded stream.
pub const CHECK_BITS: usize = 32;

/// The shortest stream that can pass validation: one payload byte and the checksum.
pub const MIN_STREAM_BITS: usize = 40;

/// The value of a stream element as a bit: 0 is 0, anything else counts as 1.
pub open spec fn bit_value(b: u32) -> nat {
    if b == 0 {
        0
    } else {
        1
    }
}

/// The weighted payload sum: the bit at position `k` weighs `2^(k % 8)`, and the sum
/// wraps at 2^32.
pub open spec fn weighted_sum(s: Seq<u32>) -> nat
    decreases s.len(),
{
    if s.len() == 0 {
        0
    } else {
        (weighted_sum(s.drop_last()) + bit_value(s.last()) * pow2(((s.len() - 1) % 8) as nat))
            % (CHECK_MODULUS as nat)
    }
}

/// The number the bits stand for, least significant first: bit `i` weighs `2^i`.
pub open spec fn bits_value(s: Seq<u32>) -> nat
    decreases s.len(),
{
    if s.len() == 0 {
        0
    } else {
        bit_value(s[0]) + 2 * bits_value(s.skip(1))
    }
}

/// The lowest `n` bits of `c`, least significant first.
pub open spec fn low_bits(c: nat, n: nat) -> Seq<u32>
    decreases n,
{
    if n == 0 {
        Seq::empty()
    } else {
        seq![(c % 2) as u32] + low_bits(c / 2, (n - 1) as nat)
    }
}

/// Zero bits appended after a payload of `len` bits: enough to reach a multiple of 8,
/// and a whole byte when it is already one.
pub open spec fn padding_len(len: nat) -> nat {
    (8 - len % 8) as nat
}

/// `n` zero bits.
pub open spec fn zeros(n: nat) -> Seq<u32> {
    Seq::new(n, |i: int| 0u32)
}

/// An encoded stream: the payload, its zero padding, then the 32-bit checksum of the
/// payload, least significant bit first.
pub open spec fn frame(payload: Seq<u32>) -> Seq<u32> {
    payload + zeros(padding_len(payload.len())) + low_bits(
        weighted_sum(payload),
        CHECK_BITS as nat,
    )
}

/// The sum recomputed over a received stream's payload part (all but the last 32 bits).
pub open spec fn payload_sum(s: Seq<u32>) -> nat {
    weighted_sum(s.take(s.len() - CHECK_BITS))
}

/// The checksum read from a received stream's last 32 bits.
pub open spec fn trailer_check(s: Seq<u32>) -> nat {
    bits_value(s.skip(s.len() - CHECK_BITS))
}

/// The loss estimate `1 - min/max` of two sums is below 0.5%; two zero sums count as
/// no loss.
pub open spec fn within_tolerance(sum: nat, check: nat) -> bool {
    let lo = if sum <= check {
        sum
    } else {
        check
    };
    let hi = if sum <= check {
        check
    } else {
        sum
    };
    hi == 0 || 200 * lo > 199 * hi
}

/// The estimate of how much of a transmission was lost: the payload sum recomputed on
/// reception and the checksum that came with it. The loss is `1 - min/max`, and zero
/// when both are zero.
#[derive(Clone, Copy, PartialEq, Eq, Debug, Structural)]
pub struct Fidelity {
    pub sum: u32,
    pub check: u32,
}

impl Fidelity {
    /// Whether the loss estimate is within tolerance.
    pub fn is_tolerable(&self) -> (r: bool)
        ensures
            r == within_tolerance(self.sum as nat, self.check as nat),
    {
        let (lo, hi) = if self.sum <= self.check {
            (self.sum as u64, self.check as u64)
        } else {
            (self.check as u64, self.sum as u64)
        };
        hi == 0 || 200 * lo > 199 * hi
    }

    /// Whether nothing was lost: the two sums agree.
    pub fn is_lossless(&self) -> (r: bool)
        ensures
            r == (self.sum == self.check),
    {
        self.sum == self.check
    }
}

pub proof fn lemma_weighted_sum_bound(s: Seq<u32>)
    ensures
        weighted_sum(s) < CHECK_MODULUS,
    decreases s.len(),
{
}

/// Zero bits leave the weighted sum unchanged.
pub proof fn lemma_weighted_sum_zeros(s: Seq<u32>, n: nat)
    ensures
        weighted_sum(s + zeros(n)) == weighted_sum(s),
    decreases n,
{
    if n > 0 {
        let shorter = s + zeros((n - 1) as nat);
        assert((s + zeros(n)).drop_last() =~= shorter);
        lemma_weighted_sum_zeros(s, (n - 1) as nat);
        lemma_weighted_sum_bound(shorter);
    } else {
        assert(s + zeros(n) =~= s);
    }
}

pub proof fn lemma_low_bits_len(c: nat, n: nat)
    ensures
        low_bits(c, n).len() == n,
    decreases n,
{
    if n > 0 {
        lemma_low_bits_len(c / 2, (n - 1) as nat);
    }
}

/// Reading back the low bits of a number below `2^n` gives the number.
pub proof fn lemma_low_bits_value(c: nat, n: nat)
    requires
        c < pow2(n),
    ensures
        bits_value(low_bits(c, n)) == c,
    decreases n,
{
    if n == 0 {
        assert(pow2(0) == 1) by {
            lemma2_to64();
        }
    } else {
        lemma_pow2_unfold(n);
        lemma_low_bits_value(c / 2, (n - 1) as nat);
        let s = low_bits(c, n);
        assert(s.skip(1) =~= low_bits(c / 2, (n - 1) as nat));
    }
}

pub proof fn lemma_bits_value_bound(s: Seq<u32>)
    ensures
        bits_value(s) < pow2(s.len()),
    decreases s.len(),
{
    if s.len() == 0 {
        lemma2_to64();
    } else {
        lemma_bits_value_bound(s.skip(1));
        lemma_pow2_unfold(s.len());
    }
}

} // verus!
