//! The integer codes as plain functions: unary, bounded binary, Elias gamma, Elias
//! delta, Rice and variable-byte.
//!
//! For each code there is the codeword of a value (`.._code`), and three functions that
//! say how a bit sequence decodes at a position: whether a codeword can be read there
//! (`.._decodable`), the value it yields (`.._value`) and where it ends (`.._end`).

use crate::bits::{bit_at, bits_of, bits_value, fits_in, holds_at, mask_of, window, zero_run};
use crate::bits::{lemma_holds_at_concat, lemma_holds_at_window, lemma_low_bits, lemma_value_of_bits};
use crate::bits::{lemma_window_inside, lemma_zero_run_skip};
use crate::integer_codes::bit_vector_iterator::BitVectorIterator;
use crate::introduction::bit_vector::{BitVector, BitVectorBuilder};
use crate::introduction::util::{lemma_msb, msb, msb_of};
use vstd::prelude::*;

verus! {

/// The unary codeword of `x`: `x` zero bits and a set bit behind them.
pub open spec fn unary_code(x: nat) -> Seq<bool> {
    Seq::new(x, |i: int| false).push(true)
}

/// A unary codeword can be read at `pos` if a set bit follows inside `bits`.
pub open spec fn unary_decodable(bits: Seq<bool>, pos: nat) -> bool {
    pos + zero_run(bits, pos) < bits.len()
}

/// The value of the unary codeword at `pos`: the number of zero bits before the set bit.
pub open spec fn unary_value(bits: Seq<bool>, pos: nat) -> nat {
    zero_run(bits, pos)
}

/// The position behind the unary codeword at `pos`.
pub open spec fn unary_end(bits: Seq<bool>, pos: nat) -> nat {
    pos + zero_run(bits, pos) + 1
}

/// The word `1 << x` has bit `x` set and no other, and fits in `x + 1` bits.
proof fn lemma_one_bit(x: u64, j: u64)
    by (bit_vector)
    requires
        x < 64,
        j < 64,
    ensures
        bit_at(1u64 << x, j) == (j == x),
        x < 63 ==> (1u64 << x) >> ((x + 1) as u64) == 0,
{
}

/// Appends the unary codeword of `x`.
pub fn write_unary(builder: &mut BitVectorBuilder, x: usize)
    requires
        old(builder).wf(),
        x < 64,
        old(builder)@.len() + unary_code(x as nat).len() <= usize::MAX,
    ensures
        final(builder).wf(),
        final(builder)@ == old(builder)@ + unary_code(x as nat),
{
    let u: u64 = 1u64 << x;
    proof {
        lemma_one_bit(x as u64, 0);
        assert forall|j: int| 0 <= j < x + 1 implies bits_of(u, (x + 1) as nat)[j] == unary_code(
            x as nat,
        )[j] by {
            lemma_one_bit(x as u64, j as u64);
        }
        assert(bits_of(u, (x + 1) as nat) =~= unary_code(x as nat));
    }
    builder.append_bits(u, x + 1);
}

/// Reads a unary codeword.
pub fn read_unary(it: &mut BitVectorIterator) -> (x: usize)
    requires
        old(it).wf(),
        unary_decodable(old(it).bits(), old(it).position() as nat),
    ensures
        final(it).wf(),
        final(it).bits() == old(it).bits(),
        x == unary_value(old(it).bits(), old(it).position() as nat),
        final(it).position() == unary_end(old(it).bits(), old(it).position() as nat),
{
    it.skip_zeros()
}

/// Reading back a unary codeword gives the value that was written.
pub proof fn lemma_unary_round_trip(x: nat, bits: Seq<bool>, pos: nat)
    requires
        holds_at(bits, pos, unary_code(x)),
    ensures
        unary_decodable(bits, pos),
        unary_value(bits, pos) == x,
        unary_end(bits, pos) == pos + unary_code(x).len(),
{
    lemma_holds_at_window(bits, pos, unary_code(x));
    assert forall|i: int| pos <= i < pos + x implies !bits[i] by {
        assert(bits[pos + (i - pos)] == unary_code(x)[i - pos]);
    }
    assert(bits[pos + x as int] == unary_code(x)[x as int]);
    lemma_zero_run_skip(bits, pos, x);
    assert(zero_run(bits, pos + x) == 0);
}

/// The number of bits in which bounded binary writes a value that is at most `r`.
pub open spec fn binary_width(r: u64) -> nat {
    msb_of(r) + 1
}

/// The bounded binary codeword of `x` for the bound `r`.
pub open spec fn binary_code(x: u64, r: u64) -> Seq<bool> {
    bits_of(x, binary_width(r))
}

/// A bounded binary codeword for the bound `r` can be read at `pos` if it lies inside
/// `bits` and denotes a value that is at most `r`.
pub open spec fn binary_decodable(bits: Seq<bool>, pos: nat, r: u64) -> bool {
    &&& r > 0
    &&& pos + binary_width(r) <= bits.len()
    &&& bits_value(window(bits, pos, binary_width(r))) <= r
}

/// The value of the bounded binary codeword at `pos`.
pub open spec fn binary_value(bits: Seq<bool>, pos: nat, r: u64) -> nat {
    bits_value(window(bits, pos, binary_width(r)))
}

/// The position behind the bounded binary codeword at `pos`.
pub open spec fn binary_end(bits: Seq<bool>, pos: nat, r: u64) -> nat {
    pos + binary_width(r)
}

/// What is at most `r` has no bit set above the most significant set bit of `r`.
proof fn lemma_below_bound_fits(x: u64, r: u64, m: u64)
    by (bit_vector)
    requires
        m < 63,
        r >> m == 1,
        x <= r,
    ensures
        x >> ((m + 1) as u64) == 0,
{
}

/// A value that is at most `r` fits in the width that bounded binary uses for `r`.
pub proof fn lemma_binary_fits(x: u64, r: u64)
    requires
        r > 0,
        x <= r,
    ensures
        binary_width(r) <= 64,
        fits_in(x, binary_width(r)),
{
    lemma_msb(r);
    if msb_of(r) < 63 {
        lemma_below_bound_fits(x, r, msb_of(r) as u64);
    }
}

/// Appends `x`, which is at most `r`, in the fixed width that the bound `r` calls for.
pub fn write_binary(builder: &mut BitVectorBuilder, x: u64, r: u64)
    requires
        old(builder).wf(),
        r > 0,
        x <= r,
        old(builder)@.len() + binary_code(x, r).len() <= usize::MAX,
    ensures
        final(builder).wf(),
        final(builder)@ == old(builder)@ + binary_code(x, r),
{
    let b: usize = msb(r) + 1;
    proof {
        lemma_binary_fits(x, r);
    }
    builder.append_bits(x, b);
}

/// Reads a value in the fixed width that the bound `r` calls for.
pub fn read_binary(it: &mut BitVectorIterator, r: u64) -> (x: u64)
    requires
        old(it).wf(),
        binary_decodable(old(it).bits(), old(it).position() as nat, r),
    ensures
        final(it).wf(),
        final(it).bits() == old(it).bits(),
        x == binary_value(old(it).bits(), old(it).position() as nat, r),
        x <= r,
        final(it).position() == binary_end(old(it).bits(), old(it).position() as nat, r),
{
    let b: usize = msb(r) + 1;
    proof {
        it.lemma_bits_bounded();
    }
    it.take(b)
}

/// Reading back a bounded binary codeword gives the value that was written.
pub proof fn lemma_binary_round_trip(x: u64, r: u64, bits: Seq<bool>, pos: nat)
    requires
        r > 0,
        x <= r,
        holds_at(bits, pos, binary_code(x, r)),
    ensures
        binary_decodable(bits, pos, r),
        binary_value(bits, pos, r) == x,
        binary_end(bits, pos, r) == pos + binary_code(x, r).len(),
{
    lemma_binary_fits(x, r);
    lemma_holds_at_window(bits, pos, binary_code(x, r));
    lemma_value_of_bits(x, binary_width(r));
}

/// The Elias gamma codeword of `x`: with `b` the position of the most significant set
/// bit of `x + 1`, the unary codeword of `b` and then the `b` bits of `x + 1` below
/// that bit.
pub open spec fn gamma_code(x: u64) -> Seq<bool> {
    let xx = (x + 1) as u64;
    unary_code(msb_of(xx)) + bits_of(xx, msb_of(xx))
}

/// A gamma codeword can be read at `pos` if a unary codeword of a value below 64
/// stands there and as many bits as it says follow inside `bits`.
pub open spec fn gamma_decodable(bits: Seq<bool>, pos: nat) -> bool {
    &&& unary_decodable(bits, pos)
    &&& zero_run(bits, pos) < 64
    &&& pos + 2 * zero_run(bits, pos) + 1 <= bits.len()
}

/// The value that `b` bits at `pos` denote below a leading set bit, less one.
pub open spec fn tail_value(bits: Seq<bool>, pos: nat, b: nat) -> u64 {
    (((bits_value(window(bits, pos, b)) as u64) | (1u64 << (b as u64))) - 1) as u64
}

/// The value of the gamma codeword at `pos`.
pub open spec fn gamma_value(bits: Seq<bool>, pos: nat) -> u64 {
    tail_value(bits, unary_end(bits, pos), zero_run(bits, pos))
}

/// The position behind the gamma codeword at `pos`.
pub open spec fn gamma_end(bits: Seq<bool>, pos: nat) -> nat {
    pos + 2 * zero_run(bits, pos) + 1
}

/// Setting bit `b` makes a word non-zero, and gives back a word whose most significant
/// set bit is bit `b` from the bits below it.
proof fn lemma_tail_bits(xx: u64, v: u64, b: u64)
    by (bit_vector)
    requires
        b < 64,
    ensures
        (v | (1u64 << b)) >= 1,
        xx >> b == 1 ==> ((xx & (((1u64 << b) - 1) as u64)) | (1u64 << b)) == xx,
{
}

/// Appends the `b` bits of `xx` below its most significant set bit, which is bit `b`.
fn write_tail(builder: &mut BitVectorBuilder, xx: u64, b: usize)
    requires
        old(builder).wf(),
        b <= 64,
        old(builder)@.len() + b <= usize::MAX,
    ensures
        final(builder).wf(),
        final(builder)@ == old(builder)@ + bits_of(xx, b as nat),
{
    proof {
        lemma_low_bits(xx, b as nat);
    }
    builder.append_bits(xx & mask_of(b), b);
}

/// Reads `b` bits and returns the value that they denote below a leading set bit,
/// less one.
fn read_tail(it: &mut BitVectorIterator, b: usize) -> (x: u64)
    requires
        old(it).wf(),
        b < 64,
        old(it).position() + b <= old(it).bits().len(),
    ensures
        final(it).wf(),
        final(it).bits() == old(it).bits(),
        final(it).position() == old(it).position() + b,
        x == tail_value(old(it).bits(), old(it).position() as nat, b as nat),
{
    proof {
        it.lemma_bits_bounded();
    }
    let v: u64 = it.take(b);
    proof {
        lemma_tail_bits(0, v, b as u64);
    }
    (v | (1u64 << b)) - 1
}

/// The tail of `xx` that stands at `pos` decodes to `xx - 1`.
proof fn lemma_tail_round_trip(xx: u64, bits: Seq<bool>, pos: nat)
    requires
        xx != 0,
        holds_at(bits, pos, bits_of(xx, msb_of(xx))),
    ensures
        tail_value(bits, pos, msb_of(xx)) == xx - 1,
{
    let b = msb_of(xx);
    lemma_msb(xx);
    lemma_holds_at_window(bits, pos, bits_of(xx, b));
    lemma_low_bits(xx, b);
    lemma_tail_bits(xx, 0, b as u64);
}

/// A gamma codeword takes an odd number of bits, at most 127.
pub proof fn lemma_gamma_code_len(x: u64)
    requires
        x < u64::MAX,
    ensures
        gamma_code(x).len() == 2 * msb_of((x + 1) as u64) + 1,
        gamma_code(x).len() <= 127,
{
    lemma_msb((x + 1) as u64);
}

/// Appends the gamma codeword of `x`.
pub fn write_gamma(builder: &mut BitVectorBuilder, x: u64)
    requires
        old(builder).wf(),
        x < u64::MAX,
        old(builder)@.len() + gamma_code(x).len() <= usize::MAX,
    ensures
        final(builder).wf(),
        final(builder)@ == old(builder)@ + gamma_code(x),
{
    let xx: u64 = x + 1;
    let b: usize = msb(xx);
    write_unary(builder, b);
    write_tail(builder, xx, b);
    assert(builder@ =~= old(builder)@ + gamma_code(x));
}

/// Reads a gamma codeword.
pub fn read_gamma(it: &mut BitVectorIterator) -> (x: u64)
    requires
        old(it).wf(),
        gamma_decodable(old(it).bits(), old(it).position() as nat),
    ensures
        final(it).wf(),
        final(it).bits() == old(it).bits(),
        x == gamma_value(old(it).bits(), old(it).position() as nat),
        final(it).position() == gamma_end(old(it).bits(), old(it).position() as nat),
{
    let b: usize = read_unary(it);
    read_tail(it, b)
}

/// Reading back a gamma codeword gives the value that was written.
pub proof fn lemma_gamma_round_trip(x: u64, bits: Seq<bool>, pos: nat)
    requires
        x < u64::MAX,
        holds_at(bits, pos, gamma_code(x)),
    ensures
        gamma_decodable(bits, pos),
        gamma_value(bits, pos) == x,
        gamma_end(bits, pos) == pos + gamma_code(x).len(),
{
    let xx = (x + 1) as u64;
    let b = msb_of(xx);
    lemma_msb(xx);
    lemma_holds_at_concat(bits, pos, unary_code(b), bits_of(xx, b));
    lemma_unary_round_trip(b, bits, pos);
    lemma_tail_round_trip(xx, bits, pos + b + 1);
}

/// The Elias delta codeword of `x`: as the gamma codeword, but with the position of
/// the most significant set bit of `x + 1` written in gamma code.
pub open spec fn delta_code(x: u64) -> Seq<bool> {
    let xx = (x + 1) as u64;
    gamma_code(msb_of(xx) as u64) + bits_of(xx, msb_of(xx))
}

/// A delta codeword can be read at `pos` if a gamma codeword of a value below 64
/// stands there and as many bits as it says follow inside `bits`.
pub open spec fn delta_decodable(bits: Seq<bool>, pos: nat) -> bool {
    &&& gamma_decodable(bits, pos)
    &&& gamma_value(bits, pos) < 64
    &&& gamma_end(bits, pos) + gamma_value(bits, pos) <= bits.len()
}

/// The value of the delta codeword at `pos`.
pub open spec fn delta_value(bits: Seq<bool>, pos: nat) -> u64 {
    tail_value(bits, gamma_end(bits, pos), gamma_value(bits, pos) as nat)
}

/// The position behind the delta codeword at `pos`.
pub open spec fn delta_end(bits: Seq<bool>, pos: nat) -> nat {
    gamma_end(bits, pos) + gamma_value(bits, pos) as nat
}

/// A delta codeword takes at most 76 bits.
pub proof fn lemma_delta_code_len(x: u64)
    requires
        x < u64::MAX,
    ensures
        delta_code(x).len() == gamma_code(msb_of((x + 1) as u64) as u64).len() + msb_of(
            (x + 1) as u64,
        ),
        delta_code(x).len() <= 76,
{
    let b = msb_of((x + 1) as u64);
    lemma_msb((x + 1) as u64);
    lemma_gamma_code_len(b as u64);
    lemma_msb((b + 1) as u64);
    if msb_of((b + 1) as u64) > 6 {
        let m = msb_of((b + 1) as u64) as u64;
        let c = (b + 1) as u64;
        assert(false) by (bit_vector)
            requires
                c <= 64,
                6 < m < 64,
                c >> m == 1,
        ;
    }
}

/// Appends the delta codeword of `x`.
pub fn write_delta(builder: &mut BitVectorBuilder, x: u64)
    requires
        old(builder).wf(),
        x < u64::MAX,
        old(builder)@.len() + delta_code(x).len() <= usize::MAX,
    ensures
        final(builder).wf(),
        final(builder)@ == old(builder)@ + delta_code(x),
{
    let xx: u64 = x + 1;
    let b: usize = msb(xx);
    write_gamma(builder, b as u64);
    write_tail(builder, xx, b);
    assert(builder@ =~= old(builder)@ + delta_code(x));
}

/// Reads a delta codeword.
pub fn read_delta(it: &mut BitVectorIterator) -> (x: u64)
    requires
        old(it).wf(),
        delta_decodable(old(it).bits(), old(it).position() as nat),
    ensures
        final(it).wf(),
        final(it).bits() == old(it).bits(),
        x == delta_value(old(it).bits(), old(it).position() as nat),
        final(it).position() == delta_end(old(it).bits(), old(it).position() as nat),
{
    let b: usize = read_gamma(it) as usize;
    read_tail(it, b)
}

/// Reading back a delta codeword gives the value that was written.
pub proof fn lemma_delta_round_trip(x: u64, bits: Seq<bool>, pos: nat)
    requires
        x < u64::MAX,
        holds_at(bits, pos, delta_code(x)),
    ensures
        delta_decodable(bits, pos),
        delta_value(bits, pos) == x,
        delta_end(bits, pos) == pos + delta_code(x).len(),
{
    let xx = (x + 1) as u64;
    let b = msb_of(xx);
    lemma_msb(xx);
    lemma_holds_at_concat(bits, pos, gamma_code(b as u64), bits_of(xx, b));
    lemma_gamma_round_trip(b as u64, bits, pos);
    lemma_tail_round_trip(xx, bits, pos + gamma_code(b as u64).len());
}

/// The Rice codeword of `x` for the parameter `k`: the gamma codeword of `x`
/// without its lowest `k` bits, and then those `k` bits.
pub open spec fn rice_code(x: u64, k: nat) -> Seq<bool> {
    gamma_code(x >> (k as u64)) + bits_of(x, k)
}

/// A Rice codeword for the parameter `k` can be read at `pos` if a gamma codeword
/// stands there and `k` bits follow it inside `bits`.
pub open spec fn rice_decodable(bits: Seq<bool>, pos: nat, k: nat) -> bool {
    &&& 0 < k < 64
    &&& gamma_decodable(bits, pos)
    &&& gamma_end(bits, pos) + k <= bits.len()
}

/// The value of the Rice codeword at `pos`: the `k` bits behind the gamma codeword,
/// plus the value of the gamma codeword shifted left by `k`.
pub open spec fn rice_value(bits: Seq<bool>, pos: nat, k: nat) -> u64 {
    (bits_value(window(bits, gamma_end(bits, pos), k)) + (gamma_value(bits, pos) << (k as u64)))
        as u64
}

/// The position behind the Rice codeword at `pos`.
pub open spec fn rice_end(bits: Seq<bool>, pos: nat, k: nat) -> nat {
    gamma_end(bits, pos) + k
}

/// A word is its lowest `k` bits plus the rest shifted back up, and neither sum nor
/// difference of the two parts leaves `u64`.
proof fn lemma_rice_split(x: u64, q: u64, r: u64, k: u64)
    by (bit_vector)
    requires
        0 < k < 64,
    ensures
        x >> k < 0xffff_ffff_ffff_ffffu64,
        (x >> k) << k <= x,
        x - ((x >> k) << k) == x & (((1u64 << k) - 1) as u64),
        (x & (((1u64 << k) - 1) as u64)) + ((x >> k) << k) == x,
        r >> k == 0 ==> r + (q << k) <= 0xffff_ffff_ffff_ffffu64,
{
}

/// A Rice codeword takes at most 190 bits.
pub proof fn lemma_rice_code_len(x: u64, k: nat)
    requires
        0 < k < 64,
    ensures
        rice_code(x, k).len() == gamma_code(x >> (k as u64)).len() + k,
        rice_code(x, k).len() <= 190,
{
    lemma_rice_split(x, 0, 0, k as u64);
    lemma_gamma_code_len(x >> (k as u64));
}

/// Appends the Rice codeword of `x` for the parameter `k`.
pub fn write_rice(builder: &mut BitVectorBuilder, x: u64, k: usize)
    requires
        old(builder).wf(),
        0 < k < 64,
        old(builder)@.len() + rice_code(x, k as nat).len() <= usize::MAX,
    ensures
        final(builder).wf(),
        final(builder)@ == old(builder)@ + rice_code(x, k as nat),
{
    proof {
        lemma_rice_split(x, 0, 0, k as u64);
        lemma_low_bits(x, k as nat);
    }
    let q: u64 = x >> k;
    let r: u64 = x - (q << k);
    write_gamma(builder, q);
    builder.append_bits(r, k);
    assert(builder@ =~= old(builder)@ + rice_code(x, k as nat));
}

/// Reads a Rice codeword for the parameter `k`.
pub fn read_rice(it: &mut BitVectorIterator, k: usize) -> (x: u64)
    requires
        old(it).wf(),
        rice_decodable(old(it).bits(), old(it).position() as nat, k as nat),
    ensures
        final(it).wf(),
        final(it).bits() == old(it).bits(),
        x == rice_value(old(it).bits(), old(it).position() as nat, k as nat),
        final(it).position() == rice_end(old(it).bits(), old(it).position() as nat, k as nat),
{
    proof {
        it.lemma_bits_bounded();
    }
    let q: u64 = read_gamma(it);
    let r: u64 = it.take(k);
    proof {
        lemma_rice_split(0, q, r, k as u64);
    }
    r + (q << k)
}

/// Reading back a Rice codeword gives the value that was written.
pub proof fn lemma_rice_round_trip(x: u64, k: nat, bits: Seq<bool>, pos: nat)
    requires
        0 < k < 64,
        holds_at(bits, pos, rice_code(x, k)),
    ensures
        rice_decodable(bits, pos, k),
        rice_value(bits, pos, k) == x,
        rice_end(bits, pos, k) == pos + rice_code(x, k).len(),
{
    let q = x >> (k as u64);
    lemma_rice_split(x, 0, 0, k as u64);
    lemma_holds_at_concat(bits, pos, gamma_code(q), bits_of(x, k));
    lemma_gamma_round_trip(q, bits, pos);
    lemma_holds_at_window(bits, pos + gamma_code(q).len(), bits_of(x, k));
    lemma_low_bits(x, k);
}

/// The variable-byte codeword of `x`: the lowest seven bits of `x` in a byte whose
/// high bit says whether more follows, and then the codeword of what is left of `x`.
pub open spec fn vbyte_code(x: u64) -> Seq<bool>
    decreases x,
{
    if x < 128 {
        bits_of(x, 8)
    } else {
        bits_of(((x % 128) + 128) as u64, 8) + vbyte_code(x / 128)
    }
}

/// The byte that stands at `pos`.
pub open spec fn byte_at(bits: Seq<bool>, pos: nat) -> u64 {
    bits_value(window(bits, pos, 8)) as u64
}

/// The bytes from `pos` on can be read as the rest of a variable-byte codeword whose
/// next seven bits go to position `shift` of the value: each byte lies inside `bits`,
/// and the codeword ends before `shift` reaches 64.
pub open spec fn vbyte_decodable_from(bits: Seq<bool>, pos: nat, shift: nat) -> bool
    decreases 70 - shift,
{
    &&& shift < 64
    &&& pos + 8 <= bits.len()
    &&& (byte_at(bits, pos) >= 128 ==> vbyte_decodable_from(bits, pos + 8, shift + 7))
}

/// What the bytes from `pos` on add to the value, the first of them at position `shift`.
pub open spec fn vbyte_value_from(bits: Seq<bool>, pos: nat, shift: nat) -> nat
    decreases 70 - shift,
{
    if shift >= 64 {
        0
    } else {
        let low = ((byte_at(bits, pos) % 128) << (shift as u64)) as nat;
        if byte_at(bits, pos) < 128 {
            low
        } else {
            low + vbyte_value_from(bits, pos + 8, shift + 7)
        }
    }
}

/// The position behind the last byte of the codeword whose next byte stands at `pos`.
pub open spec fn vbyte_end_from(bits: Seq<bool>, pos: nat, shift: nat) -> nat
    decreases 70 - shift,
{
    if shift >= 64 || byte_at(bits, pos) < 128 {
        pos + 8
    } else {
        vbyte_end_from(bits, pos + 8, shift + 7)
    }
}

/// A variable-byte codeword can be read at `pos` if `pos` is a byte boundary and at
/// most ten bytes inside `bits` make up the codeword.
pub open spec fn vbyte_decodable(bits: Seq<bool>, pos: nat) -> bool {
    pos % 8 == 0 && vbyte_decodable_from(bits, pos, 0)
}

/// The value of the variable-byte codeword at `pos`.
pub open spec fn vbyte_value(bits: Seq<bool>, pos: nat) -> nat {
    vbyte_value_from(bits, pos, 0)
}

/// The position behind the variable-byte codeword at `pos`.
pub open spec fn vbyte_end(bits: Seq<bool>, pos: nat) -> nat {
    vbyte_end_from(bits, pos, 0)
}

/// A variable-byte codeword is made of whole bytes, at least one.
pub proof fn lemma_vbyte_code_len(x: u64)
    ensures
        vbyte_code(x).len() % 8 == 0,
        vbyte_code(x).len() >= 8,
    decreases x,
{
    if x >= 128 {
        lemma_vbyte_code_len(x / 128);
    }
}

/// Masks and shifts by seven bits are remainders and quotients by 128.
proof fn lemma_vbyte_bytes(x: u64)
    by (bit_vector)
    ensures
        x & 127 == x % 128,
        (x & 127) | 128 == (x % 128) + 128,
        x >> 7 == x / 128,
        x < 256 ==> x >> 8 == 0,
        ((x % 128) + 128) as u64 >> 8 == 0,
{
}

/// What one more byte does to a value that is put together seven bits at a time.
proof fn lemma_vbyte_step(y: u64, val: u64, byte: u64, s: u64)
    by (bit_vector)
    requires
        s < 64,
    ensures
        (s == 0 || y >> ((64 - s) as u64) == 0) && y >= 128 ==> s + 7 < 64 && (y / 128) >> ((64 - s
            - 7) as u64) == 0 && ((y % 128) << s) + ((y / 128) << ((s + 7) as u64)) == y << s,
        (((y % 128) + 128) as u64) % 128 == y % 128,
        val >> s == 0 ==> val + ((byte & 127) << s) <= 0xffff_ffff_ffff_ffffu64,
        val >> s == 0 && s + 7 < 64 ==> (val + ((byte & 127) << s)) as u64 >> ((s + 7) as u64) == 0,
        0u64 >> s == 0,
{
}

/// Appends the variable-byte codeword of `x`.
pub fn write_vbyte(builder: &mut BitVectorBuilder, x: u64)
    requires
        old(builder).wf(),
        old(builder)@.len() + vbyte_code(x).len() <= usize::MAX,
    ensures
        final(builder).wf(),
        final(builder)@ == old(builder)@ + vbyte_code(x),
    decreases x,
{
    proof {
        lemma_vbyte_bytes(x);
    }
    if x < 128 {
        builder.append_bits(x, 8);
        return ;
    }
    let data_bits: u64 = x & 127;
    builder.append_bits(data_bits | 128, 8);
    write_vbyte(builder, x >> 7);
    assert(builder@ =~= old(builder)@ + vbyte_code(x));
}

/// Reads a variable-byte codeword.
pub fn read_vbyte(it: &mut BitVectorIterator) -> (val: u64)
    requires
        old(it).wf(),
        vbyte_decodable(old(it).bits(), old(it).position() as nat),
    ensures
        final(it).wf(),
        final(it).bits() == old(it).bits(),
        val == vbyte_value(old(it).bits(), old(it).position() as nat),
        final(it).position() == vbyte_end(old(it).bits(), old(it).position() as nat),
{
    let ghost bits = it.bits();
    let ghost start = it.position() as nat;
    proof {
        it.lemma_bits_bounded();
        lemma_vbyte_step(0, 0, 0, 0);
    }
    let mut val: u64 = 0;
    let mut shift: usize = 0;
    loop
        invariant_except_break
            vbyte_decodable_from(bits, it.position() as nat, shift as nat),
            vbyte_value(bits, start) == val + vbyte_value_from(
                bits,
                it.position() as nat,
                shift as nat,
            ),
            vbyte_end(bits, start) == vbyte_end_from(bits, it.position() as nat, shift as nat),
            val >> shift == 0,
        invariant
            it.wf(),
            it.bits() == bits,
            bits.len() <= usize::MAX,
            it.position() % 8 == 0,
            shift < 64,
        ensures
            val == vbyte_value(bits, start),
            it.position() == vbyte_end(bits, start),
        decreases 70 - shift,
    {
        let byte: u64 = it.take_one_byte();
        proof {
            reveal_with_fuel(vbyte_decodable_from, 2);
            lemma_vbyte_bytes(byte);
            lemma_vbyte_step(0, val, byte, shift as u64);
        }
        val += (byte & 127) << shift;
        if byte < 128 {
            break ;
        }
        shift += 7;
    }
    val
}

/// A codeword of `y` that continues a value at position `shift` adds `y`, shifted
/// left by `shift`, to the value.
proof fn lemma_vbyte_round_trip_from(y: u64, shift: nat, bits: Seq<bool>, pos: nat)
    requires
        shift < 64,
        shift == 0 || y >> ((64 - shift) as u64) == 0,
        holds_at(bits, pos, vbyte_code(y)),
    ensures
        vbyte_decodable_from(bits, pos, shift),
        vbyte_value_from(bits, pos, shift) == y << (shift as u64),
        vbyte_end_from(bits, pos, shift) == pos + vbyte_code(y).len(),
    decreases y,
{
    lemma_vbyte_bytes(y);
    lemma_vbyte_step(y, 0, 0, shift as u64);
    if y < 128 {
        lemma_holds_at_window(bits, pos, vbyte_code(y));
        lemma_value_of_bits(y, 8);
    } else {
        let first = ((y % 128) + 128) as u64;
        lemma_holds_at_concat(bits, pos, bits_of(first, 8), vbyte_code(y / 128));
        lemma_holds_at_window(bits, pos, bits_of(first, 8));
        lemma_value_of_bits(first, 8);
        assert(byte_at(bits, pos) == first);
        lemma_vbyte_round_trip_from(y / 128, shift + 7, bits, pos + 8);
    }
}

/// Reading back a variable-byte codeword that stands on a byte boundary gives the
/// value that was written.
pub proof fn lemma_vbyte_round_trip(x: u64, bits: Seq<bool>, pos: nat)
    requires
        pos % 8 == 0,
        holds_at(bits, pos, vbyte_code(x)),
    ensures
        vbyte_decodable(bits, pos),
        vbyte_value(bits, pos) == x,
        vbyte_end(bits, pos) == pos + vbyte_code(x).len(),
{
    lemma_vbyte_round_trip_from(x, 0, bits, pos);
    assert(x << 0u64 == x) by (bit_vector);
}

/// Whether a unary codeword can be read at the cursor.
pub fn can_read_unary(it: &BitVectorIterator) -> (ok: bool)
    requires
        it.wf(),
    ensures
        ok == unary_decodable(it.bits(), it.position() as nat),
{
    match it.source().next_one(it.position()) {
        Some(_) => true,
        None => false,
    }
}

/// The length of the unary codeword of `x`, if `x` has one.
pub fn unary_code_len(x: usize) -> (len: Option<usize>)
    ensures
        match len {
            Some(n) => x < 64 && n == unary_code(x as nat).len(),
            None => x >= 64,
        },
{
    if x < 64 {
        Some(x + 1)
    } else {
        None
    }
}

/// Whether a bounded binary codeword for the bound `r` can be read at the cursor.
pub fn can_read_binary(it: &BitVectorIterator, r: u64) -> (ok: bool)
    requires
        it.wf(),
    ensures
        ok == binary_decodable(it.bits(), it.position() as nat, r),
{
    if r == 0 {
        return false;
    }
    let bv = it.source();
    let pos: usize = it.position();
    let b: usize = msb(r) + 1;
    if pos > bv.num_bits() || bv.num_bits() - pos < b {
        return false;
    }
    proof {
        lemma_window_inside(bv@, pos as nat, b as nat);
    }
    bv.get_bits(pos, b) <= r
}

/// The length of the bounded binary codeword of `x` for the bound `r`, if `x` has one.
pub fn binary_code_len(x: u64, r: u64) -> (len: Option<usize>)
    ensures
        match len {
            Some(n) => r > 0 && x <= r && n == binary_code(x, r).len(),
            None => !(r > 0 && x <= r),
        },
{
    if r > 0 && x <= r {
        Some(msb(r) + 1)
    } else {
        None
    }
}

/// The value and the end of the gamma codeword at `pos`, if one can be read there.
fn peek_gamma(bv: &BitVector, pos: usize) -> (found: Option<(u64, usize)>)
    requires
        bv.wf(),
    ensures
        match found {
            Some((x, end)) => gamma_decodable(bv@, pos as nat) && x == gamma_value(
                bv@,
                pos as nat,
            ) && end == gamma_end(bv@, pos as nat),
            None => !gamma_decodable(bv@, pos as nat),
        },
{
    match bv.next_one(pos) {
        None => None,
        Some(p) => {
            let b: usize = p - pos;
            if b >= 64 || bv.num_bits() - (p + 1) < b {
                return None;
            }
            proof {
                lemma_window_inside(bv@, (p + 1) as nat, b as nat);
            }
            let v: u64 = bv.get_bits(p + 1, b);
            proof {
                lemma_tail_bits(0, v, b as u64);
            }
            Some(((v | (1u64 << b)) - 1, p + 1 + b))
        },
    }
}

/// Whether a gamma codeword can be read at the cursor.
pub fn can_read_gamma(it: &BitVectorIterator) -> (ok: bool)
    requires
        it.wf(),
    ensures
        ok == gamma_decodable(it.bits(), it.position() as nat),
{
    match peek_gamma(it.source(), it.position()) {
        Some(_) => true,
        None => false,
    }
}

/// The length of the gamma codeword of `x`, if `x` has one.
pub fn gamma_code_len(x: u64) -> (len: Option<usize>)
    ensures
        match len {
            Some(n) => x < u64::MAX && n == gamma_code(x).len(),
            None => x == u64::MAX,
        },
{
    if x < u64::MAX {
        Some(2 * msb(x + 1) + 1)
    } else {
        None
    }
}

/// Whether a delta codeword can be read at the cursor.
pub fn can_read_delta(it: &BitVectorIterator) -> (ok: bool)
    requires
        it.wf(),
    ensures
        ok == delta_decodable(it.bits(), it.position() as nat),
{
    let bv = it.source();
    match peek_gamma(bv, it.position()) {
        Some((b, end)) => b < 64 && bv.num_bits() - end >= b as usize,
        None => false,
    }
}

/// The length of the delta codeword of `x`, if `x` has one.
pub fn delta_code_len(x: u64) -> (len: Option<usize>)
    ensures
        match len {
            Some(n) => x < u64::MAX && n == delta_code(x).len(),
            None => x == u64::MAX,
        },
{
    if x < u64::MAX {
        let b: usize = msb(x + 1);
        Some(2 * msb(b as u64 + 1) + 1 + b)
    } else {
        None
    }
}

/// Whether a Rice codeword for the parameter `k` can be read at the cursor.
pub fn can_read_rice(it: &BitVectorIterator, k: usize) -> (ok: bool)
    requires
        it.wf(),
    ensures
        ok == rice_decodable(it.bits(), it.position() as nat, k as nat),
{
    if k == 0 || k >= 64 {
        return false;
    }
    let bv = it.source();
    match peek_gamma(bv, it.position()) {
        Some((_, end)) => bv.num_bits() - end >= k,
        None => false,
    }
}

/// The length of the Rice codeword of `x` for the parameter `k`, if `k` is one that
/// the code can be used with.
pub fn rice_code_len(x: u64, k: usize) -> (len: Option<usize>)
    ensures
        match len {
            Some(n) => 0 < k < 64 && n == rice_code(x, k as nat).len(),
            None => !(0 < k < 64),
        },
{
    if 0 < k && k < 64 {
        proof {
            lemma_rice_split(x, 0, 0, k as u64);
        }
        Some(2 * msb((x >> k) + 1) + 1 + k)
    } else {
        None
    }
}

/// Whether a variable-byte codeword can be read at the cursor.
pub fn can_read_vbyte(it: &BitVectorIterator) -> (ok: bool)
    requires
        it.wf(),
    ensures
        ok == vbyte_decodable(it.bits(), it.position() as nat),
{
    let bv = it.source();
    let start: usize = it.position();
    if start % 8 != 0 {
        return false;
    }
    let mut pos: usize = start;
    let mut shift: usize = 0;
    loop
        invariant
            bv.wf(),
            bv@ == it.bits(),
            start == it.position(),
            start % 8 == 0,
            shift <= 63,
            vbyte_decodable_from(bv@, start as nat, 0) == vbyte_decodable_from(
                bv@,
                pos as nat,
                shift as nat,
            ),
        decreases 70 - shift,
    {
        if pos > bv.num_bits() || bv.num_bits() - pos < 8 {
            return false;
        }
        proof {
            lemma_window_inside(bv@, pos as nat, 8);
        }
        let byte: u64 = bv.get_bits(pos, 8);
        if byte < 128 {
            return true;
        }
        if shift + 7 >= 64 {
            proof {
                reveal_with_fuel(vbyte_decodable_from, 2);
            }
            return false;
        }
        pos += 8;
        shift += 7;
    }
}

/// A variable-byte codeword takes at most ten bytes.
pub proof fn lemma_vbyte_code_bound(x: u64)
    ensures
        vbyte_code(x).len() <= 80,
{
    reveal_with_fuel(vbyte_code, 11);
    let x1 = x / 128;
    let x2 = x1 / 128;
    let x3 = x2 / 128;
    let x4 = x3 / 128;
    let x5 = x4 / 128;
    let x6 = x5 / 128;
    let x7 = x6 / 128;
    let x8 = x7 / 128;
    let x9 = x8 / 128;
    assert(x9 < 128);
}

/// The length of the variable-byte codeword of `x`.
pub fn vbyte_code_len(x: u64) -> (len: usize)
    ensures
        len == vbyte_code(x).len(),
{
    proof {
        lemma_vbyte_code_bound(x);
    }
    let mut len: usize = 8;
    let mut rest: u64 = x;
    while rest >= 128
        invariant
            vbyte_code(x).len() + 8 == len + vbyte_code(rest).len(),
            vbyte_code(x).len() <= 80,
        decreases rest,
    {
        proof {
            lemma_vbyte_bytes(rest);
            lemma_vbyte_code_len(rest / 128);
        }
        rest = rest >> 7;
        len += 8;
    }
    len
}

} // verus!
