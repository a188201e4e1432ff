//! Bit-width arithmetic shared by the storage layer and the codes.

use crate::bits::{bit_at, lemma_bit_ops, low_mask};
use vstd::prelude::*;

verus! {

/// The number of 64-bit words that `num_bits` bits occupy.
pub open spec fn words_for(num_bits: nat) -> nat {
    (num_bits + 63) / 64
}

/// Number of 64-bit words needed to store `num_bits` bits.
pub fn num_64bit_words_for(num_bits: usize) -> (n: usize)
    ensures
        n == words_for(num_bits as nat),
{
    let full: usize = num_bits / 64;
    if num_bits % 64 == 0 {
        full
    } else {
        full + 1
    }
}

/// How many of the lowest `n` bits of `x` are zero.
pub open spec fn zero_bits(x: u64, n: nat) -> nat
    decreases n,
{
    if n == 0 {
        0
    } else {
        zero_bits(x, (n - 1) as nat) + if bit_at(x, (n - 1) as u64) { 0nat } else { 1nat }
    }
}

/// Position of the most significant set bit of `x`, counted from zero: the integer part
/// of the binary logarithm.
pub open spec fn msb_of(x: u64) -> nat
    decreases x,
{
    if x <= 1 {
        0
    } else {
        1 + msb_of(x / 2)
    }
}

/// `num_traits::Zero::zero` at `u64`, which `num_traits` defines as the literal `0`.
#[verifier::external_body]
fn zero_word() -> (z: u64)
    ensures
        z == 0,
{
    num_traits::Zero::zero()
}

/// `num_traits::PrimInt::count_zeros` at `u64`, which forwards to `u64::count_zeros`:
/// the number of zero bits among the 64 bits of `x`.
#[verifier::external_body]
fn count_zeros(x: u64) -> (n: u32)
    ensures
        n == zero_bits(x, 64),
{
    num_traits::PrimInt::count_zeros(x)
}

/// `num_traits::PrimInt::leading_zeros` at `u64`, which forwards to `u64::leading_zeros`:
/// the number of zero bits above the most significant set bit, 64 for zero. The
/// contract says so by what is left of `x` once everything below that bit is shifted out.
#[verifier::external_body]
fn leading_zeros(x: u64) -> (n: u32)
    ensures
        n <= 64,
        n == 64 <==> x == 0,
        n < 64 ==> x >> ((63 - n) as u64) == 1,
{
    num_traits::PrimInt::leading_zeros(x)
}

/// `num_traits::PrimInt::trailing_zeros` at `u64`, which forwards to
/// `u64::trailing_zeros`: the number of zero bits below the least significant set bit,
/// 64 for zero.
#[verifier::external_body]
fn trailing_zeros(x: u64) -> (n: u32)
    ensures
        n <= 64,
        n == 64 <==> x == 0,
        n < 64 ==> bit_at(x, n as u64) && x & low_mask(n as nat) == 0,
{
    num_traits::PrimInt::trailing_zeros(x)
}

/// Every bit of zero is a zero bit.
proof fn lemma_zero_bits_of_zero(n: nat)
    requires
        n <= 64,
    ensures
        zero_bits(0, n) == n,
    decreases n,
{
    if n > 0 {
        lemma_bit_ops(0, 0, (n - 1) as u64);
        lemma_zero_bits_of_zero((n - 1) as nat);
    }
}

/// Halving a word moves its most significant set bit one position down.
proof fn lemma_msb_step(x: u64, r: u64)
    by (bit_vector)
    requires
        r < 64,
        x >> r == 1,
    ensures
        x != 0,
        r == 0 ==> x == 1,
        r > 0 ==> x >= 2 && (x / 2) >> ((r - 1) as u64) == 1,
{
}

/// The most significant set bit of `x` is the one position `r` for which shifting `x`
/// right by `r` leaves exactly 1.
pub proof fn lemma_msb_unique(x: u64, r: u64)
    requires
        r < 64,
        x >> r == 1,
    ensures
        x != 0,
        msb_of(x) == r,
    decreases r,
{
    lemma_msb_step(x, r);
    if r > 0 {
        lemma_msb_unique(x / 2, (r - 1) as u64);
    }
}

/// A non-zero word has its most significant set bit below position 64, and nothing
/// above it.
pub proof fn lemma_msb(x: u64)
    requires
        x != 0,
    ensures
        msb_of(x) < 64,
        x >> (msb_of(x) as u64) == 1,
    decreases x,
{
    if x == 1 {
        assert(1u64 >> 0u64 == 1) by (bit_vector);
    } else {
        let h = x / 2;
        lemma_msb(h);
        let m = msb_of(h) as u64;
        assert(m < 63 && x >> ((m + 1) as u64) == 1) by (bit_vector)
            requires
                h == x / 2,
                m < 64,
                h >> m == 1,
        ;
    }
}

/// Position of the most significant set bit of `x`.
pub fn msb(x: u64) -> (r: usize)
    requires
        x != 0,
    ensures
        r == msb_of(x),
        r < 64,
        x >> r == 1,
{
    proof {
        lemma_zero_bits_of_zero(64);
    }
    let num_bits: u32 = count_zeros(zero_word());
    let lz: u32 = leading_zeros(x);
    let r: u32 = num_bits - 1 - lz;
    proof {
        lemma_msb_unique(x, r as u64);
    }
    r as usize
}

/// Position of the least significant set bit of `x`; 64 if `x` is zero.
pub fn lsb(x: u64) -> (r: usize)
    ensures
        r <= 64,
        r == 64 <==> x == 0,
        r < 64 ==> bit_at(x, r as u64),
        forall|j: u64| j < r ==> !#[trigger] bit_at(x, j),
{
    let tz: u32 = trailing_zeros(x);
    proof {
        assert forall|j: u64| j < tz implies !#[trigger] bit_at(x, j) by {
            if tz < 64 {
                let m = low_mask(tz as nat);
                let t = tz as u64;
                assert(!bit_at(x, j)) by (bit_vector)
                    requires
                        t < 64,
                        j < t,
                        m == ((1u64 << t) - 1) as u64,
                        x & m == 0,
                ;
            } else {
                lemma_bit_ops(0, 0, j);
            }
        }
    }
    tz as usize
}

} // verus!
