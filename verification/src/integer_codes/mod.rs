//! Variable-length integer codes, and the cursor that decodes them.
//!
//! `IntegerCode` is the common shape of the codes: a codeword for each value that the
//! code can write, and the way a bit sequence decodes at a position. The unit structs
//! below select a code at compile time.

pub mod bit_vector_iterator;
pub mod check;
pub mod compress;
pub mod decompress;
pub mod integer_codes;
pub mod lists;
pub mod numbers;

use crate::bits::holds_at;
use crate::integer_codes::bit_vector_iterator::BitVectorIterator;
use crate::integer_codes::integer_codes::{binary_code, binary_decodable, binary_end, binary_value};
use crate::integer_codes::integer_codes::{binary_code_len, delta_code_len, gamma_code_len};
use crate::integer_codes::integer_codes::{can_read_binary, can_read_delta, can_read_gamma};
use crate::integer_codes::integer_codes::{can_read_rice, can_read_unary, can_read_vbyte};
use crate::integer_codes::integer_codes::{rice_code_len, unary_code_len, vbyte_code_len};
use crate::integer_codes::integer_codes::{delta_code, delta_decodable, delta_end, delta_value};
use crate::integer_codes::integer_codes::{gamma_code, gamma_decodable, gamma_end, gamma_value};
use crate::integer_codes::integer_codes::{lemma_binary_round_trip, lemma_delta_round_trip};
use crate::integer_codes::integer_codes::{lemma_gamma_round_trip, lemma_rice_round_trip};
use crate::integer_codes::integer_codes::{lemma_unary_round_trip, lemma_vbyte_round_trip};
use crate::integer_codes::integer_codes::{lemma_vbyte_code_len};
use crate::integer_codes::integer_codes::{read_binary, read_delta, read_gamma, read_rice};
use crate::integer_codes::integer_codes::{read_unary, read_vbyte};
use crate::integer_codes::integer_codes::{rice_code, rice_decodable, rice_end, rice_value};
use crate::integer_codes::integer_codes::{unary_code, unary_decodable, unary_end, unary_value};
use crate::integer_codes::integer_codes::{vbyte_code, vbyte_decodable, vbyte_end, vbyte_value};
use crate::integer_codes::integer_codes::{write_binary, write_delta, write_gamma, write_rice};
use crate::integer_codes::integer_codes::{write_unary, write_vbyte};
use crate::introduction::bit_vector::BitVectorBuilder;
use vstd::prelude::*;

verus! {

/// A code for values of type `T`.
pub trait IntegerCode<T> {
    /// The code can write `x`.
    spec fn encodable(x: T) -> bool;

    /// The codeword of `x`.
    spec fn code(x: T) -> Seq<bool>;

    /// The unit of the code, in bits: a codeword is read at a multiple of the unit,
    /// and its length is a multiple of the unit.
    spec fn unit() -> nat;

    /// A codeword can be read from `bits` at `pos`.
    spec fn decodable(bits: Seq<bool>, pos: nat) -> bool;

    /// The value of the codeword that stands in `bits` at `pos`.
    spec fn value(bits: Seq<bool>, pos: nat) -> T;

    /// The position behind the codeword that stands in `bits` at `pos`.
    spec fn end(bits: Seq<bool>, pos: nat) -> nat;

    /// The unit is 1, 2, 4, 8, 16 or 32 bits.
    proof fn lemma_unit()
        ensures
            Self::unit() > 0,
            32nat % Self::unit() == 0,
    ;

    /// Every codeword is made of whole units.
    proof fn lemma_whole_units(x: T)
        requires
            Self::encodable(x),
        ensures
            Self::code(x).len() % Self::unit() == 0,
    ;

    /// Wherever the codeword of `x` stands at a multiple of the unit, it can be read,
    /// it reads as `x`, and reading it ends right behind it.
    proof fn lemma_round_trip(x: T, bits: Seq<bool>, pos: nat)
        requires
            Self::encodable(x),
            Self::unit() > 0,
            pos % Self::unit() == 0,
            holds_at(bits, pos, Self::code(x)),
        ensures
            Self::decodable(bits, pos),
            Self::value(bits, pos) == x,
            Self::end(bits, pos) == pos + Self::code(x).len(),
    ;

    /// The length of the codeword of `x`, or `None` if the code cannot write `x`.
    fn code_len(x: T) -> (len: Option<usize>)
        ensures
            match len {
                Some(n) => Self::encodable(x) && n == Self::code(x).len(),
                None => !Self::encodable(x),
            },
    ;

    /// Whether a codeword can be read at the cursor.
    fn can_read(it: &BitVectorIterator) -> (ok: bool)
        requires
            it.wf(),
        ensures
            ok == Self::decodable(it.bits(), it.position() as nat),
    ;

    /// Appends the codeword of `x`.
    fn write(builder: &mut BitVectorBuilder, x: T)
        requires
            old(builder).wf(),
            Self::encodable(x),
            old(builder)@.len() + Self::code(x).len() <= usize::MAX,
        ensures
            final(builder).wf(),
            final(builder)@ == old(builder)@ + Self::code(x),
    ;

    /// Reads the codeword at the cursor and moves the cursor behind it.
    fn read(it: &mut BitVectorIterator) -> (x: T)
        requires
            old(it).wf(),
            Self::decodable(old(it).bits(), old(it).position() as nat),
        ensures
            final(it).wf(),
            final(it).bits() == old(it).bits(),
            x == Self::value(old(it).bits(), old(it).position() as nat),
            final(it).position() == Self::end(old(it).bits(), old(it).position() as nat),
    ;
}

/// The unary code, for values below 64.
pub struct UnaryCode;

impl IntegerCode<usize> for UnaryCode {
    open spec fn encodable(x: usize) -> bool {
        x < 64
    }

    open spec fn code(x: usize) -> Seq<bool> {
        unary_code(x as nat)
    }

    open spec fn unit() -> nat {
        1
    }

    open spec fn decodable(bits: Seq<bool>, pos: nat) -> bool {
        unary_decodable(bits, pos)
    }

    open spec fn value(bits: Seq<bool>, pos: nat) -> usize {
        unary_value(bits, pos) as usize
    }

    open spec fn end(bits: Seq<bool>, pos: nat) -> nat {
        unary_end(bits, pos)
    }

    proof fn lemma_unit() {
    }

    proof fn lemma_whole_units(x: usize) {
    }

    proof fn lemma_round_trip(x: usize, bits: Seq<bool>, pos: nat) {
        lemma_unary_round_trip(x as nat, bits, pos);
    }

    fn code_len(x: usize) -> (len: Option<usize>) {
        unary_code_len(x)
    }

    fn can_read(it: &BitVectorIterator) -> (ok: bool) {
        can_read_unary(it)
    }

    fn write(builder: &mut BitVectorBuilder, x: usize) {
        write_unary(builder, x)
    }

    fn read(it: &mut BitVectorIterator) -> (x: usize) {
        read_unary(it)
    }
}

/// The bounded binary code for values that are at most `R`.
pub struct BinaryCode<const R: u64>;

impl<const R: u64> IntegerCode<u64> for BinaryCode<R> {
    open spec fn encodable(x: u64) -> bool {
        R > 0 && x <= R
    }

    open spec fn code(x: u64) -> Seq<bool> {
        binary_code(x, R)
    }

    open spec fn unit() -> nat {
        1
    }

    open spec fn decodable(bits: Seq<bool>, pos: nat) -> bool {
        binary_decodable(bits, pos, R)
    }

    open spec fn value(bits: Seq<bool>, pos: nat) -> u64 {
        binary_value(bits, pos, R) as u64
    }

    open spec fn end(bits: Seq<bool>, pos: nat) -> nat {
        binary_end(bits, pos, R)
    }

    proof fn lemma_unit() {
    }

    proof fn lemma_whole_units(x: u64) {
    }

    proof fn lemma_round_trip(x: u64, bits: Seq<bool>, pos: nat) {
        lemma_binary_round_trip(x, R, bits, pos);
    }

    fn code_len(x: u64) -> (len: Option<usize>) {
        binary_code_len(x, R)
    }

    fn can_read(it: &BitVectorIterator) -> (ok: bool) {
        can_read_binary(it, R)
    }

    fn write(builder: &mut BitVectorBuilder, x: u64) {
        write_binary(builder, x, R)
    }

    fn read(it: &mut BitVectorIterator) -> (x: u64) {
        read_binary(it, R)
    }
}

/// The Elias gamma code.
pub struct GammaCode;

impl IntegerCode<u64> for GammaCode {
    open spec fn encodable(x: u64) -> bool {
        x < u64::MAX
    }

    open spec fn code(x: u64) -> Seq<bool> {
        gamma_code(x)
    }

    open spec fn unit() -> nat {
        1
    }

    open spec fn decodable(bits: Seq<bool>, pos: nat) -> bool {
        gamma_decodable(bits, pos)
    }

    open spec fn value(bits: Seq<bool>, pos: nat) -> u64 {
        gamma_value(bits, pos)
    }

    open spec fn end(bits: Seq<bool>, pos: nat) -> nat {
        gamma_end(bits, pos)
    }

    proof fn lemma_unit() {
    }

    proof fn lemma_whole_units(x: u64) {
    }

    proof fn lemma_round_trip(x: u64, bits: Seq<bool>, pos: nat) {
        lemma_gamma_round_trip(x, bits, pos);
    }

    fn code_len(x: u64) -> (len: Option<usize>) {
        gamma_code_len(x)
    }

    fn can_read(it: &BitVectorIterator) -> (ok: bool) {
        can_read_gamma(it)
    }

    fn write(builder: &mut BitVectorBuilder, x: u64) {
        write_gamma(builder, x)
    }

    fn read(it: &mut BitVectorIterator) -> (x: u64) {
        read_gamma(it)
    }
}

/// The Elias delta code.
pub struct DeltaCode;

impl IntegerCode<u64> for DeltaCode {
    open spec fn encodable(x: u64) -> bool {
        x < u64::MAX
    }

    open spec fn code(x: u64) -> Seq<bool> {
        delta_code(x)
    }

    open spec fn unit() -> nat {
        1
    }

    open spec fn decodable(bits: Seq<bool>, pos: nat) -> bool {
        delta_decodable(bits, pos)
    }

    open spec fn value(bits: Seq<bool>, pos: nat) -> u64 {
        delta_value(bits, pos)
    }

    open spec fn end(bits: Seq<bool>, pos: nat) -> nat {
        delta_end(bits, pos)
    }

    proof fn lemma_unit() {
    }

    proof fn lemma_whole_units(x: u64) {
    }

    proof fn lemma_round_trip(x: u64, bits: Seq<bool>, pos: nat) {
        lemma_delta_round_trip(x, bits, pos);
    }

    fn code_len(x: u64) -> (len: Option<usize>) {
        delta_code_len(x)
    }

    fn can_read(it: &BitVectorIterator) -> (ok: bool) {
        can_read_delta(it)
    }

    fn write(builder: &mut BitVectorBuilder, x: u64) {
        write_delta(builder, x)
    }

    fn read(it: &mut BitVectorIterator) -> (x: u64) {
        read_delta(it)
    }
}

/// The Rice code with the parameter `K`.
pub struct RiceCode<const K: usize>;

impl<const K: usize> IntegerCode<u64> for RiceCode<K> {
    open spec fn encodable(x: u64) -> bool {
        0 < K < 64
    }

    open spec fn code(x: u64) -> Seq<bool> {
        rice_code(x, K as nat)
    }

    open spec fn unit() -> nat {
        1
    }

    open spec fn decodable(bits: Seq<bool>, pos: nat) -> bool {
        rice_decodable(bits, pos, K as nat)
    }

    open spec fn value(bits: Seq<bool>, pos: nat) -> u64 {
        rice_value(bits, pos, K as nat)
    }

    open spec fn end(bits: Seq<bool>, pos: nat) -> nat {
        rice_end(bits, pos, K as nat)
    }

    proof fn lemma_unit() {
    }

    proof fn lemma_whole_units(x: u64) {
    }

    proof fn lemma_round_trip(x: u64, bits: Seq<bool>, pos: nat) {
        lemma_rice_round_trip(x, K as nat, bits, pos);
    }

    fn code_len(x: u64) -> (len: Option<usize>) {
        rice_code_len(x, K)
    }

    fn can_read(it: &BitVectorIterator) -> (ok: bool) {
        can_read_rice(it, K)
    }

    fn write(builder: &mut BitVectorBuilder, x: u64) {
        write_rice(builder, x, K)
    }

    fn read(it: &mut BitVectorIterator) -> (x: u64) {
        read_rice(it, K)
    }
}

/// The variable-byte code.
pub struct VByteCode;

impl IntegerCode<u64> for VByteCode {
    open spec fn encodable(x: u64) -> bool {
        true
    }

    open spec fn code(x: u64) -> Seq<bool> {
        vbyte_code(x)
    }

    open spec fn unit() -> nat {
        8
    }

    open spec fn decodable(bits: Seq<bool>, pos: nat) -> bool {
        vbyte_decodable(bits, pos)
    }

    open spec fn value(bits: Seq<bool>, pos: nat) -> u64 {
        vbyte_value(bits, pos) as u64
    }

    open spec fn end(bits: Seq<bool>, pos: nat) -> nat {
        vbyte_end(bits, pos)
    }

    proof fn lemma_unit() {
    }

    proof fn lemma_whole_units(x: u64) {
        lemma_vbyte_code_len(x);
    }

    proof fn lemma_round_trip(x: u64, bits: Seq<bool>, pos: nat) {
        lemma_vbyte_round_trip(x, bits, pos);
    }

    fn code_len(x: u64) -> (len: Option<usize>) {
        Some(vbyte_code_len(x))
    }

    fn can_read(it: &BitVectorIterator) -> (ok: bool) {
        can_read_vbyte(it)
    }

    fn write(builder: &mut BitVectorBuilder, x: u64) {
        write_vbyte(builder, x)
    }

    fn read(it: &mut BitVectorIterator) -> (x: u64) {
        read_vbyte(it)
    }
}

/// Read from the start of its own codeword, every value that a code can write comes
/// back, and the codeword is read to its end.
pub proof fn lemma_read_after_write<T, C: IntegerCode<T>>(x: T)
    requires
        C::encodable(x),
    ensures
        C::decodable(C::code(x), 0),
        C::value(C::code(x), 0) == x,
        C::end(C::code(x), 0) == C::code(x).len(),
{
    C::lemma_unit();
    let code = C::code(x);
    assert(code.subrange(0, code.len() as int) =~= code);
    C::lemma_round_trip(x, code, 0);
}

} // verus!
