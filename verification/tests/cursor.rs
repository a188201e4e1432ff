use bitcodec::integer_codes::bit_vector_iterator::BitVectorIterator;
use bitcodec::introduction::bit_vector::{BitVector, BitVectorBuilder};

fn built(builder: &mut BitVectorBuilder) -> BitVector {
    let mut bv = BitVector::new();
    builder.build(&mut bv);
    bv
}

fn pattern(len: usize, seed: u64) -> u64 {
    let x = seed.wrapping_mul(0x9e37_79b9_7f4a_7c15) ^ 0x0f0f_1234_5678_9abc;
    if len == 64 {
        x
    } else {
        x & ((1u64 << len) - 1)
    }
}

#[test]
fn take_reads_fields_in_order() {
    let widths: [usize; 14] = [3, 61, 5, 59, 64, 1, 63, 2, 33, 31, 17, 47, 64, 64];
    let mut builder = BitVectorBuilder::new();
    let mut values = Vec::new();
    for (i, &len) in widths.iter().enumerate() {
        let value = pattern(len, i as u64);
        builder.append_bits(value, len);
        values.push(value);
    }
    let bv = built(&mut builder);
    let mut it = BitVectorIterator::new(&bv, 0);
    let mut pos = 0;
    for (i, &len) in widths.iter().enumerate() {
        assert_eq!(it.position(), pos);
        assert_eq!(it.take(len), values[i]);
        pos += len;
    }
    assert_eq!(it.position(), bv.num_bits());
}

#[test]
fn take_of_no_bits_reads_zero() {
    let mut builder = BitVectorBuilder::new();
    builder.append_bits(0b1, 1);
    let bv = built(&mut builder);
    let mut it = BitVectorIterator::new(&bv, 0);
    assert_eq!(it.take(0), 0);
    assert_eq!(it.position(), 0);
    assert_eq!(it.take(1), 1);
    assert_eq!(it.take(0), 0);
    assert_eq!(it.position(), 1);
}

#[test]
fn take_behind_the_end_reads_zero_bits() {
    let mut builder = BitVectorBuilder::new();
    builder.append_bits(0b111, 3);
    let bv = built(&mut builder);
    let mut it = BitVectorIterator::new(&bv, 1);
    assert_eq!(it.take(10), 0b11);
    assert_eq!(it.position(), 11);
}

#[test]
fn a_cursor_may_start_anywhere() {
    let mut builder = BitVectorBuilder::new();
    builder.append_bits(0x0123_4567_89ab_cdef, 64);
    builder.append_bits(0xfedc_ba98_7654_3210, 64);
    let bv = built(&mut builder);
    for pos in 0..=64usize {
        let mut it = BitVectorIterator::new(&bv, pos);
        assert_eq!(it.position(), pos);
        assert_eq!(it.take(64), bv.get_bits(pos, 64));
        assert_eq!(it.position(), pos + 64);
    }
}

#[test]
fn at_moves_the_cursor_and_forgets_the_buffer() {
    let mut builder = BitVectorBuilder::new();
    builder.append_bits(0x0123_4567_89ab_cdef, 64);
    builder.append_bits(0xfedc_ba98_7654_3210, 64);
    let bv = built(&mut builder);
    let mut it = BitVectorIterator::new(&bv, 0);
    assert_eq!(it.take(8), 0xef);
    it.at(64);
    assert_eq!(it.position(), 64);
    assert_eq!(it.take(8), 0x10);
    it.at(4);
    assert_eq!(it.take(8), 0xde);
    it.at(120);
    assert_eq!(it.take_one_byte(), 0xfe);
    it.at(0);
    assert_eq!(it.skip_zeros(), 0);
    assert_eq!(it.position(), 1);
}

#[test]
fn take_one_byte_reads_bytes() {
    let mut builder = BitVectorBuilder::new();
    for i in 0..40u64 {
        builder.append_bits((i * 7 + 3) % 256, 8);
    }
    let bv = built(&mut builder);
    let mut it = BitVectorIterator::new(&bv, 0);
    for i in 0..40u64 {
        assert_eq!(it.position() as u64, 8 * i);
        assert_eq!(it.take_one_byte(), (i * 7 + 3) % 256);
    }
    assert_eq!(it.position(), 320);
}

#[test]
fn take_one_byte_after_reads_of_other_widths() {
    let mut builder = BitVectorBuilder::new();
    builder.append_bits(0xa, 4);
    builder.append_bits(0xb, 4);
    for i in 0..16u64 {
        builder.append_bits(0xf0 + i, 8);
    }
    let bv = built(&mut builder);
    // The buffer is loaded at bit 4, so that at bit 64 it holds four bits only.
    let mut it = BitVectorIterator::new(&bv, 4);
    assert_eq!(it.take(4), 0xb);
    for i in 0..16u64 {
        assert_eq!(it.take_one_byte(), 0xf0 + i);
    }
    assert_eq!(it.position(), 136);
}

#[test]
fn take_of_a_whole_word_then_skip_zeros() {
    let mut builder = BitVectorBuilder::new();
    builder.append_bits(u64::MAX, 64);
    builder.append_bits(0b1000, 4);
    let bv = built(&mut builder);
    let mut it = BitVectorIterator::new(&bv, 0);
    assert_eq!(it.take(64), u64::MAX);
    assert_eq!(it.skip_zeros(), 3);
    assert_eq!(it.position(), 68);
}

#[test]
fn skip_zeros_counts_runs() {
    let runs: [usize; 9] = [0, 1, 5, 63, 64, 65, 130, 0, 200];
    let mut builder = BitVectorBuilder::new();
    for &run in &runs {
        let mut left = run;
        while left >= 64 {
            builder.append_bits(0, 64);
            left -= 64;
        }
        builder.append_bits(0, left);
        builder.append_bits(1, 1);
    }
    let bv = built(&mut builder);
    let mut it = BitVectorIterator::new(&bv, 0);
    let mut pos = 0;
    for &run in &runs {
        assert_eq!(it.skip_zeros(), run);
        pos += run + 1;
        assert_eq!(it.position(), pos);
    }
    assert_eq!(pos, bv.num_bits());
}

#[test]
fn skip_zeros_between_takes() {
    let mut builder = BitVectorBuilder::new();
    builder.append_bits(0b101, 3);
    builder.append_bits(0, 64);
    builder.append_bits(0, 36);
    builder.append_bits(0b11, 2);
    builder.append_bits(0x55, 8);
    let bv = built(&mut builder);
    let mut it = BitVectorIterator::new(&bv, 0);
    assert_eq!(it.take(3), 0b101);
    assert_eq!(it.skip_zeros(), 100);
    assert_eq!(it.position(), 104);
    assert_eq!(it.skip_zeros(), 0);
    assert_eq!(it.take(8), 0x55);
    assert_eq!(it.position(), 113);
}

#[test]
fn two_cursors_read_one_vector() {
    let mut builder = BitVectorBuilder::new();
    builder.append_bits(0xdead_beef, 32);
    builder.append_bits(0xcafe, 16);
    let bv = built(&mut builder);
    let mut first = BitVectorIterator::new(&bv, 0);
    let mut second = BitVectorIterator::new(&bv, 32);
    assert_eq!(first.take(16), 0xbeef);
    assert_eq!(second.take(16), 0xcafe);
    assert_eq!(first.take(16), 0xdead);
    assert_eq!(first.position(), 32);
    assert_eq!(second.position(), 48);
}
