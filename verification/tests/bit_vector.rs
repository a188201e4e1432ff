use bitcodec::bits::mask_of;
use bitcodec::introduction::bit_vector::{BitVector, BitVectorBuilder};
use bitcodec::introduction::util::{lsb, msb, num_64bit_words_for};

fn built(builder: &mut BitVectorBuilder) -> BitVector {
    let mut bv = BitVector::new();
    builder.build(&mut bv);
    bv
}

fn pattern(len: usize, seed: u64) -> u64 {
    let x = seed.wrapping_mul(0x9e37_79b9_7f4a_7c15) ^ 0xdead_beef_cafe_f00d;
    if len == 64 {
        x
    } else {
        x & ((1u64 << len) - 1)
    }
}

#[test]
fn new_vectors_are_empty() {
    let bv = BitVector::new();
    assert_eq!(bv.num_bits(), 0);
    assert_eq!(bv.num_64bit_words(), 0);
    assert_eq!(bv.get_bits(0, 0), 0);
    assert_eq!(bv.get_word64(0), 0);
    let builder = BitVectorBuilder::new();
    assert_eq!(builder.num_bits(), 0);
}

#[test]
fn append_then_get_reads_back() {
    let mut builder = BitVectorBuilder::new();
    builder.append_bits(5, 3);
    builder.append_bits(0x1234_5678_9abc_def0, 64);
    builder.append_bits(1, 1);
    assert_eq!(builder.num_bits(), 68);
    let bv = built(&mut builder);
    assert_eq!(bv.num_bits(), 68);
    assert_eq!(bv.num_64bit_words(), 2);
    assert_eq!(bv.get_bits(0, 3), 5);
    assert_eq!(bv.get_bits(3, 64), 0x1234_5678_9abc_def0);
    assert_eq!(bv.get_bits(67, 1), 1);
    assert_eq!(builder.num_bits(), 0);
}

#[test]
fn append_reads_back_at_every_offset_and_width() {
    for pos in 0..64usize {
        for len in 1..=64usize {
            let value = pattern(len, (pos * 64 + len) as u64);
            let mut builder = BitVectorBuilder::new();
            builder.append_bits(0, pos);
            builder.append_bits(value, len);
            assert_eq!(builder.num_bits(), pos + len);
            let bv = built(&mut builder);
            assert_eq!(bv.get_bits(pos, len), value);
            assert_eq!(bv.get_bits(0, pos), 0);
            assert_eq!(bv.num_64bit_words(), (pos + len + 63) / 64);
        }
    }
}

#[test]
fn append_reads_back_behind_set_bits() {
    for pos in 1..=64usize {
        for len in 1..=64usize {
            let value = pattern(len, (pos * 64 + len) as u64);
            let mut builder = BitVectorBuilder::new();
            builder.append_bits(mask_of(pos), pos);
            builder.append_bits(value, len);
            let bv = built(&mut builder);
            assert_eq!(bv.get_bits(pos, len), value);
            assert_eq!(bv.get_bits(0, pos), mask_of(pos));
        }
    }
}

#[test]
fn widths_that_straddle_word_boundaries() {
    let widths: [usize; 12] = [3, 61, 5, 59, 64, 1, 63, 2, 33, 31, 17, 47];
    let mut builder = BitVectorBuilder::new();
    let mut values = Vec::new();
    for (i, &len) in widths.iter().enumerate() {
        let value = pattern(len, i as u64);
        builder.append_bits(value, len);
        values.push(value);
    }
    let total: usize = widths.iter().sum();
    assert_eq!(builder.num_bits(), total);
    let bv = built(&mut builder);
    assert_eq!(bv.num_64bit_words(), (total + 63) / 64);
    let mut pos = 0;
    for (i, &len) in widths.iter().enumerate() {
        assert_eq!(bv.get_bits(pos, len), values[i]);
        pos += len;
    }
}

#[test]
fn appending_nothing_changes_nothing() {
    let mut builder = BitVectorBuilder::new();
    builder.append_bits(0, 0);
    assert_eq!(builder.num_bits(), 0);
    builder.append_bits(0b11, 2);
    builder.append_bits(0, 0);
    assert_eq!(builder.num_bits(), 2);
    let bv = built(&mut builder);
    assert_eq!(bv.get_bits(0, 2), 0b11);
    assert_eq!(bv.get_bits(1, 0), 0);
}

#[test]
fn set_bits_patches_and_leaves_the_rest() {
    for pos in 0..64usize {
        for len in 1..=64usize {
            let mut builder = BitVectorBuilder::new();
            builder.append_bits(u64::MAX, 64);
            builder.append_bits(0, 64);
            builder.append_bits(0x0123_4567_89ab_cdef, 64);
            let value = pattern(len, (pos + 100 * len) as u64);
            builder.set_bits(pos, value, len);
            assert_eq!(builder.num_bits(), 192);
            let bv = built(&mut builder);
            assert_eq!(bv.get_bits(pos, len), value);
            assert_eq!(bv.get_bits(0, pos), mask_of(pos));
            let behind = pos + len;
            if behind < 64 {
                assert_eq!(bv.get_bits(behind, 64 - behind), mask_of(64 - behind));
                assert_eq!(bv.get_bits(64, 64), 0);
            } else {
                assert_eq!(bv.get_bits(behind, 128 - behind), 0);
            }
            assert_eq!(bv.get_bits(128, 64), 0x0123_4567_89ab_cdef);
        }
    }
}

#[test]
fn set_bits_fills_a_reserved_header() {
    let mut builder = BitVectorBuilder::new();
    builder.append_bits(0, 32);
    builder.append_bits(77, 7);
    builder.set_bits(0, 0xfeed_f00d, 32);
    builder.set_bits(5, 0, 0);
    let bv = built(&mut builder);
    assert_eq!(bv.get_bits(0, 32), 0xfeed_f00d);
    assert_eq!(bv.get_bits(32, 7), 77);
}

#[test]
fn resize_twice_is_resize_once() {
    let mut builder = BitVectorBuilder::new();
    builder.append_bits(0xabcd, 16);
    builder.append_bits(0x1f, 5);
    builder.resize(100);
    assert_eq!(builder.num_bits(), 100);
    builder.resize(100);
    assert_eq!(builder.num_bits(), 100);
    let bv = built(&mut builder);
    assert_eq!(bv.num_64bit_words(), 2);
    assert_eq!(bv.get_bits(0, 16), 0xabcd);
    assert_eq!(bv.get_bits(16, 5), 0x1f);
    assert_eq!(bv.get_bits(21, 64), 0);
    assert_eq!(bv.get_bits(85, 15), 0);
}

#[test]
fn resize_makes_room_to_patch() {
    let mut builder = BitVectorBuilder::new();
    builder.resize(130);
    assert_eq!(builder.num_bits(), 130);
    builder.set_bits(60, 0x3ff, 10);
    builder.set_bits(128, 0b11, 2);
    let bv = built(&mut builder);
    assert_eq!(bv.num_64bit_words(), 3);
    assert_eq!(bv.get_bits(0, 60), 0);
    assert_eq!(bv.get_bits(60, 10), 0x3ff);
    assert_eq!(bv.get_bits(70, 58), 0);
    assert_eq!(bv.get_bits(128, 2), 0b11);
}

#[test]
fn resize_to_less_drops_the_bits_behind() {
    let mut builder = BitVectorBuilder::new();
    builder.append_bits(u64::MAX, 64);
    builder.append_bits(u64::MAX, 64);
    builder.resize(70);
    assert_eq!(builder.num_bits(), 70);
    builder.append_bits(0, 2);
    builder.resize(128);
    let bv = built(&mut builder);
    assert_eq!(bv.get_bits(0, 64), u64::MAX);
    assert_eq!(bv.get_bits(64, 6), 0x3f);
    assert_eq!(bv.get_bits(70, 58), 0);
}

#[test]
fn reserve_keeps_the_bits() {
    let mut builder = BitVectorBuilder::new();
    builder.append_bits(0b1011, 4);
    builder.reserve(37 * 10000);
    assert_eq!(builder.num_bits(), 4);
    builder.append_bits(0b1, 1);
    let bv = built(&mut builder);
    assert_eq!(bv.get_bits(0, 5), 0b11011);
}

#[test]
fn build_empties_the_builder() {
    let mut builder = BitVectorBuilder::new();
    builder.append_bits(0xff, 8);
    let first = built(&mut builder);
    assert_eq!(builder.num_bits(), 0);
    builder.append_bits(0b10, 2);
    assert_eq!(builder.num_bits(), 2);
    let second = built(&mut builder);
    assert_eq!(first.num_bits(), 8);
    assert_eq!(first.get_bits(0, 8), 0xff);
    assert_eq!(second.num_bits(), 2);
    assert_eq!(second.get_bits(0, 2), 0b10);
}

#[test]
fn build_replaces_what_the_vector_held() {
    let mut builder = BitVectorBuilder::new();
    builder.append_bits(u64::MAX, 64);
    builder.append_bits(u64::MAX, 64);
    let mut bv = built(&mut builder);
    builder.append_bits(0b101, 3);
    builder.build(&mut bv);
    assert_eq!(bv.num_bits(), 3);
    assert_eq!(bv.num_64bit_words(), 1);
    assert_eq!(bv.get_bits(0, 3), 0b101);
    assert_eq!(bv.get_word64(0), 0b101);
}

#[test]
fn get_word64_reads_a_window() {
    let mut builder = BitVectorBuilder::new();
    builder.append_bits(0x0123_4567_89ab_cdef, 64);
    builder.append_bits(0xfedc_ba98_7654_3210, 64);
    builder.append_bits(0b111, 3);
    let bv = built(&mut builder);
    assert_eq!(bv.get_word64(0), 0x0123_4567_89ab_cdef);
    assert_eq!(bv.get_word64(64), 0xfedc_ba98_7654_3210);
    assert_eq!(bv.get_word64(4), 0x0012_3456_789a_bcde);
    assert_eq!(bv.get_word64(60), 0xedcb_a987_6543_2100);
    // Behind the end the window is zero.
    assert_eq!(bv.get_word64(128), 0b111);
    assert_eq!(bv.get_word64(129), 0b11);
    assert_eq!(bv.get_word64(131), 0);
    assert_eq!(bv.get_word64(68), 0x7fed_cba9_8765_4321);
}

#[test]
fn get_word64_at_the_end_of_a_full_word() {
    let mut builder = BitVectorBuilder::new();
    builder.append_bits(u64::MAX, 64);
    let bv = built(&mut builder);
    assert_eq!(bv.get_word64(64), 0);
    assert_eq!(bv.get_word64(63), 1);
}

#[test]
fn words_needed_for_bits() {
    assert_eq!(num_64bit_words_for(0), 0);
    assert_eq!(num_64bit_words_for(1), 1);
    assert_eq!(num_64bit_words_for(64), 1);
    assert_eq!(num_64bit_words_for(65), 2);
    assert_eq!(num_64bit_words_for(128), 2);
    assert_eq!(num_64bit_words_for(37 * 10000), 5782);
    assert_eq!(num_64bit_words_for(usize::MAX), usize::MAX / 64 + 1);
}

#[test]
fn most_significant_bit() {
    assert_eq!(msb(1), 0);
    assert_eq!(msb(2), 1);
    assert_eq!(msb(3), 1);
    assert_eq!(msb(4), 2);
    assert_eq!(msb(255), 7);
    assert_eq!(msb(256), 8);
    assert_eq!(msb(1000), 9);
    assert_eq!(msb(u64::MAX), 63);
    for i in 0..64 {
        assert_eq!(msb(1u64 << i), i);
        assert_eq!(msb((1u64 << i) | 1), i);
    }
}

#[test]
fn least_significant_bit() {
    assert_eq!(lsb(0), 64);
    assert_eq!(lsb(1), 0);
    assert_eq!(lsb(2), 1);
    assert_eq!(lsb(12), 2);
    assert_eq!(lsb(u64::MAX), 0);
    for i in 0..64 {
        assert_eq!(lsb(1u64 << i), i);
        assert_eq!(lsb(u64::MAX << i), i);
    }
}

#[test]
fn masks_hold_the_low_bits() {
    assert_eq!(mask_of(0), 0);
    assert_eq!(mask_of(1), 1);
    assert_eq!(mask_of(8), 255);
    assert_eq!(mask_of(63), u64::MAX >> 1);
    assert_eq!(mask_of(64), u64::MAX);
}

#[test]
fn next_one_finds_the_next_set_bit() {
    let mut builder = BitVectorBuilder::new();
    builder.append_bits(0b100, 3);
    builder.append_bits(0, 64);
    builder.append_bits(0, 64);
    builder.append_bits(1, 1);
    builder.append_bits(0, 10);
    let bv = built(&mut builder);
    assert_eq!(bv.next_one(0), Some(2));
    assert_eq!(bv.next_one(2), Some(2));
    assert_eq!(bv.next_one(3), Some(131));
    assert_eq!(bv.next_one(131), Some(131));
    assert_eq!(bv.next_one(132), None);
    assert_eq!(bv.next_one(142), None);
    assert_eq!(bv.next_one(1000), None);
    assert_eq!(BitVector::new().next_one(0), None);
}
