use bitcodec::integer_codes::bit_vector_iterator::BitVectorIterator;
use bitcodec::integer_codes::integer_codes::{read_binary, read_delta, read_gamma, read_rice};
use bitcodec::integer_codes::integer_codes::{read_unary, read_vbyte};
use bitcodec::integer_codes::integer_codes::{write_binary, write_delta, write_gamma, write_rice};
use bitcodec::integer_codes::integer_codes::{write_unary, write_vbyte};
use bitcodec::integer_codes::{BinaryCode, DeltaCode, GammaCode, IntegerCode};
use bitcodec::integer_codes::{RiceCode, UnaryCode, VByteCode};
use bitcodec::introduction::bit_vector::{BitVector, BitVectorBuilder};

fn built(builder: &mut BitVectorBuilder) -> BitVector {
    let mut bv = BitVector::new();
    builder.build(&mut bv);
    bv
}

fn samples() -> Vec<u64> {
    let mut values = vec![0, 1, 2, 3, 4, 5, 6, 7, 8, 15, 16, 17, 127, 128, 129, 255, 256, 300];
    for shift in 9..64 {
        values.push((1u64 << shift) - 1);
        values.push(1u64 << shift);
        values.push((1u64 << shift) + 1);
    }
    values.push(u64::MAX - 1);
    values
}

#[test]
fn unary_and_skip_zeros_agree() {
    for x in 0..64usize {
        let mut builder = BitVectorBuilder::new();
        write_unary(&mut builder, x);
        assert_eq!(builder.num_bits(), x + 1);
        let bv = built(&mut builder);
        let mut it = BitVectorIterator::new(&bv, 0);
        assert_eq!(it.skip_zeros(), x);
        assert_eq!(it.position(), x + 1);
        let mut it = BitVectorIterator::new(&bv, 0);
        assert_eq!(read_unary(&mut it), x);
        assert_eq!(it.position(), x + 1);
    }
}

#[test]
fn unary_codeword_is_a_single_set_bit() {
    let mut builder = BitVectorBuilder::new();
    write_unary(&mut builder, 3);
    write_unary(&mut builder, 0);
    let bv = built(&mut builder);
    assert_eq!(bv.num_bits(), 5);
    assert_eq!(bv.get_bits(0, 5), 0b11000);
}

#[test]
fn unary_round_trip_in_sequence() {
    let mut builder = BitVectorBuilder::new();
    for x in 0..64usize {
        UnaryCode::write(&mut builder, x);
    }
    let bv = built(&mut builder);
    assert_eq!(bv.num_bits(), 64 * 65 / 2);
    let mut it = BitVectorIterator::new(&bv, 0);
    for x in 0..64usize {
        assert_eq!(UnaryCode::read(&mut it), x);
    }
    assert_eq!(it.position(), bv.num_bits());
}

#[test]
fn binary_uses_the_width_of_its_bound() {
    let mut builder = BitVectorBuilder::new();
    write_binary(&mut builder, 5, 9);
    assert_eq!(builder.num_bits(), 4);
    write_binary(&mut builder, 1, 1);
    assert_eq!(builder.num_bits(), 5);
    write_binary(&mut builder, 8, 8);
    assert_eq!(builder.num_bits(), 9);
    write_binary(&mut builder, u64::MAX, u64::MAX);
    assert_eq!(builder.num_bits(), 73);
    let bv = built(&mut builder);
    let mut it = BitVectorIterator::new(&bv, 0);
    assert_eq!(read_binary(&mut it, 9), 5);
    assert_eq!(read_binary(&mut it, 1), 1);
    assert_eq!(read_binary(&mut it, 8), 8);
    assert_eq!(read_binary(&mut it, u64::MAX), u64::MAX);
    assert_eq!(it.position(), 73);
}

#[test]
fn binary_round_trip() {
    let mut builder = BitVectorBuilder::new();
    for x in 0..=1000u64 {
        BinaryCode::<1000>::write(&mut builder, x);
    }
    assert_eq!(builder.num_bits(), 1001 * 10);
    let bv = built(&mut builder);
    let mut it = BitVectorIterator::new(&bv, 0);
    for x in 0..=1000u64 {
        assert_eq!(BinaryCode::<1000>::read(&mut it), x);
    }
}

#[test]
fn gamma_codewords_bit_by_bit() {
    // 0 is written as 1; 1 as 0 1 0; 2 as 0 1 1; 5 as 0 0 1 0 1 (6 = 0b110).
    let mut builder = BitVectorBuilder::new();
    write_gamma(&mut builder, 0);
    assert_eq!(builder.num_bits(), 1);
    write_gamma(&mut builder, 1);
    assert_eq!(builder.num_bits(), 4);
    write_gamma(&mut builder, 2);
    assert_eq!(builder.num_bits(), 7);
    write_gamma(&mut builder, 5);
    assert_eq!(builder.num_bits(), 12);
    let bv = built(&mut builder);
    assert_eq!(bv.get_bits(0, 1), 0b1);
    assert_eq!(bv.get_bits(1, 3), 0b010);
    assert_eq!(bv.get_bits(4, 3), 0b110);
    assert_eq!(bv.get_bits(7, 5), 0b10100);
}

#[test]
fn gamma_round_trip() {
    let values = samples();
    let mut builder = BitVectorBuilder::new();
    for &x in &values {
        write_gamma(&mut builder, x);
    }
    let bv = built(&mut builder);
    let mut it = BitVectorIterator::new(&bv, 0);
    for &x in &values {
        assert_eq!(read_gamma(&mut it), x);
    }
    assert_eq!(it.position(), bv.num_bits());
    let mut it = BitVectorIterator::new(&bv, 0);
    for &x in &values {
        assert_eq!(GammaCode::read(&mut it), x);
    }
}

#[test]
fn gamma_takes_twice_the_width_plus_one() {
    let mut builder = BitVectorBuilder::new();
    GammaCode::write(&mut builder, u64::MAX - 1);
    assert_eq!(builder.num_bits(), 2 * 63 + 1);
    GammaCode::write(&mut builder, 92);
    assert_eq!(builder.num_bits(), 127 + 13);
}

#[test]
fn delta_round_trip() {
    let values = samples();
    let mut builder = BitVectorBuilder::new();
    for &x in &values {
        write_delta(&mut builder, x);
    }
    let bv = built(&mut builder);
    let mut it = BitVectorIterator::new(&bv, 0);
    for &x in &values {
        assert_eq!(read_delta(&mut it), x);
    }
    assert_eq!(it.position(), bv.num_bits());
    let mut builder = BitVectorBuilder::new();
    for &x in &values {
        DeltaCode::write(&mut builder, x);
    }
    let again = built(&mut builder);
    let mut it = BitVectorIterator::new(&again, 0);
    for &x in &values {
        assert_eq!(DeltaCode::read(&mut it), x);
    }
}

#[test]
fn delta_codeword_lengths() {
    // For x + 1 with b bits below its leading bit: the gamma codeword of b, then b bits.
    let mut builder = BitVectorBuilder::new();
    write_delta(&mut builder, 0);
    assert_eq!(builder.num_bits(), 1);
    write_delta(&mut builder, 1);
    assert_eq!(builder.num_bits(), 1 + 4);
    write_delta(&mut builder, 92);
    assert_eq!(builder.num_bits(), 5 + 5 + 6);
    write_delta(&mut builder, u64::MAX - 1);
    assert_eq!(builder.num_bits(), 16 + 13 + 63);
}

#[test]
fn rice_round_trip() {
    let values = samples();
    for k in 1..64usize {
        let mut builder = BitVectorBuilder::new();
        for &x in &values {
            write_rice(&mut builder, x, k);
        }
        let bv = built(&mut builder);
        let mut it = BitVectorIterator::new(&bv, 0);
        for &x in &values {
            assert_eq!(read_rice(&mut it, k), x);
        }
        assert_eq!(it.position(), bv.num_bits());
    }
    let mut builder = BitVectorBuilder::new();
    for &x in &values {
        RiceCode::<5>::write(&mut builder, x);
    }
    let bv = built(&mut builder);
    let mut it = BitVectorIterator::new(&bv, 0);
    for &x in &values {
        assert_eq!(RiceCode::<5>::read(&mut it), x);
    }
}

#[test]
fn rice_splits_quotient_and_remainder() {
    // 13 with k = 2: quotient 3 in gamma code (0 0 1 0 0), remainder 1 in two bits.
    let mut builder = BitVectorBuilder::new();
    write_rice(&mut builder, 13, 2);
    assert_eq!(builder.num_bits(), 7);
    let bv = built(&mut builder);
    assert_eq!(bv.get_bits(0, 5), 0b00100);
    assert_eq!(bv.get_bits(5, 2), 0b01);
    let mut it = BitVectorIterator::new(&bv, 0);
    assert_eq!(read_gamma(&mut it), 3);
    assert_eq!(it.take(2), 1);
}

#[test]
fn vbyte_of_300_takes_two_bytes() {
    let mut builder = BitVectorBuilder::new();
    write_vbyte(&mut builder, 300);
    assert_eq!(builder.num_bits(), 16);
    let bv = built(&mut builder);
    assert_eq!(bv.get_bits(0, 8), 0b10101100);
    assert_eq!(bv.get_bits(8, 8), 0b00000010);
    let mut it = BitVectorIterator::new(&bv, 0);
    assert_eq!(read_vbyte(&mut it), 300);
    assert_eq!(it.position(), 16);
}

#[test]
fn vbyte_decodes_two_given_bytes() {
    let mut builder = BitVectorBuilder::new();
    builder.append_bits(0b10101100, 8);
    builder.append_bits(0b00000010, 8);
    let bv = built(&mut builder);
    let mut it = BitVectorIterator::new(&bv, 0);
    assert_eq!(VByteCode::read(&mut it), 300);
}

#[test]
fn vbyte_round_trip() {
    let values = samples();
    let mut builder = BitVectorBuilder::new();
    for &x in &values {
        write_vbyte(&mut builder, x);
    }
    write_vbyte(&mut builder, u64::MAX);
    let bv = built(&mut builder);
    let mut it = BitVectorIterator::new(&bv, 0);
    for &x in &values {
        assert_eq!(read_vbyte(&mut it), x);
    }
    assert_eq!(read_vbyte(&mut it), u64::MAX);
    assert_eq!(it.position(), bv.num_bits());
}

#[test]
fn vbyte_codeword_lengths() {
    let mut builder = BitVectorBuilder::new();
    VByteCode::write(&mut builder, 0);
    assert_eq!(builder.num_bits(), 8);
    VByteCode::write(&mut builder, 127);
    assert_eq!(builder.num_bits(), 16);
    VByteCode::write(&mut builder, 128);
    assert_eq!(builder.num_bits(), 32);
    VByteCode::write(&mut builder, u64::MAX);
    assert_eq!(builder.num_bits(), 32 + 80);
}

#[test]
fn codes_read_behind_a_prefix() {
    let mut builder = BitVectorBuilder::new();
    builder.append_bits(0b101, 3);
    write_gamma(&mut builder, 1000);
    write_delta(&mut builder, 1000);
    write_rice(&mut builder, 1000, 3);
    write_binary(&mut builder, 1000, 1023);
    write_unary(&mut builder, 17);
    let bv = built(&mut builder);
    let mut it = BitVectorIterator::new(&bv, 3);
    assert_eq!(read_gamma(&mut it), 1000);
    assert_eq!(read_delta(&mut it), 1000);
    assert_eq!(read_rice(&mut it, 3), 1000);
    assert_eq!(read_binary(&mut it, 1023), 1000);
    assert_eq!(read_unary(&mut it), 17);
    assert_eq!(it.position(), bv.num_bits());
}
