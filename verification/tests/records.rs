use bitcodec::introduction::bit_vector::{BitVector, BitVectorBuilder};
use bitcodec::introduction::packed_records::Record;
use bitcodec::introduction::sort_bench::{LargeRecord, SmallRecord};
use rand::rngs::SmallRng;
use rand::{Rng, SeedableRng};
use std::time::Instant;

#[test]
fn packed_records() {
    let n = 10000;
    let mut records: Vec<Record> = Vec::new();
    records.reserve(n);

    let mut rng = SmallRng::seed_from_u64(3);
    for _ in 0..n {
        let r = Record::new(
            rng.gen(),
            rng.gen(),
            rng.gen::<u8>() % 32,
            rng.gen::<u8>() % 16,
            rng.gen::<u16>() % 4096,
        );
        records.push(r);
    }

    let mut builder = BitVectorBuilder::new();
    builder.reserve(37 * n);

    for r in &records {
        builder.append_bits(r.weight as u64, 8);
        builder.append_bits(r.height as u64, 8);
        builder.append_bits(r.day as u64, 5);
        builder.append_bits(r.month as u64, 4);
        builder.append_bits(r.year as u64, 12);
    }

    let mut packed_records = BitVector::new();
    builder.build(&mut packed_records);

    println!("packed_records num_bits = {}", packed_records.num_bits());
    println!(
        "{} bits/record",
        packed_records.num_bits() as f64 / n as f64
    );
    println!(
        "packed_records num_64bit_words = {}",
        packed_records.num_64bit_words()
    );
    println!(
        "{} bits/record",
        packed_records.num_64bit_words() as f64 * 64.0 / n as f64
    );

    let mut pos = 0;
    for r in &records {
        let weight = packed_records.get_bits(pos, 8) as u8;
        assert_eq!(weight, r.weight);
        pos += 8;

        let height = packed_records.get_bits(pos, 8) as u8;
        assert_eq!(height, r.height);
        pos += 8;

        let day = packed_records.get_bits(pos, 5) as u8;
        assert_eq!(day, r.day);
        pos += 5;

        let month = packed_records.get_bits(pos, 4) as u8;
        assert_eq!(month, r.month);
        pos += 4;

        let year = packed_records.get_bits(pos, 12) as u16;
        assert_eq!(year, r.year);
        pos += 12;
    }
}

#[test]
fn packed_records_take_37_bits_each() {
    let mut builder = BitVectorBuilder::new();
    let records = [Record::new(80, 180, 31, 12, 1999), Record::new(255, 0, 1, 1, 4095)];
    for r in &records {
        builder.append_bits(r.weight as u64, 8);
        builder.append_bits(r.height as u64, 8);
        builder.append_bits(r.day as u64, 5);
        builder.append_bits(r.month as u64, 4);
        builder.append_bits(r.year as u64, 12);
    }
    assert_eq!(builder.num_bits(), 74);
    let mut packed = BitVector::new();
    builder.build(&mut packed);
    assert_eq!(packed.num_64bit_words(), 2);
    assert_eq!(packed.get_bits(37, 8), 255);
    assert_eq!(packed.get_bits(37 + 25, 12), 4095);
    assert_eq!(packed.get_bits(25, 12), 1999);
}

#[test]
fn records_keep_their_fields() {
    let r = Record::new(1, 2, 3, 4, 5);
    assert_eq!((r.weight, r.height, r.day, r.month, r.year), (1, 2, 3, 4, 5));
    let l = LargeRecord::new(1, 2, 3, 4, 5);
    assert_eq!((l.weight, l.height, l.day, l.month, l.year), (1, 2, 3, 4, 5));
    let s = SmallRecord::new(1, 2, 3, 4, 5);
    assert_eq!((s.weight, s.height, s.day, s.month, s.year), (1, 2, 3, 4, 5));
}

#[test]
fn records_order_field_by_field() {
    assert!(LargeRecord::new(1, 9, 9, 9, 9) < LargeRecord::new(2, 0, 0, 0, 0));
    assert!(LargeRecord::new(1, 2, 3, 4, 5) < LargeRecord::new(1, 2, 3, 4, 6));
    assert!(LargeRecord::new(1, 2, 3, 4, 5) == LargeRecord::new(1, 2, 3, 4, 5));
    assert!(SmallRecord::new(1, 9, 9, 9, 9) < SmallRecord::new(2, 0, 0, 0, 0));
    assert!(SmallRecord::new(1, 2, 3, 4, 5) < SmallRecord::new(1, 2, 4, 0, 0));
    let mut small = vec![
        SmallRecord::new(3, 0, 0, 0, 0),
        SmallRecord::new(1, 5, 0, 0, 0),
        SmallRecord::new(1, 2, 0, 0, 7),
    ];
    small.sort_unstable();
    assert!(small[0] == SmallRecord::new(1, 2, 0, 0, 7));
    assert!(small[1] == SmallRecord::new(1, 5, 0, 0, 0));
    assert!(small[2] == SmallRecord::new(3, 0, 0, 0, 0));
}

#[test]
fn sort_bench() {
    let vector_size = 10_000_000;
    let mut rng = SmallRng::seed_from_u64(13);
    let mut large_records: Vec<LargeRecord> = Vec::new();
    let mut small_records: Vec<SmallRecord> = Vec::new();
    large_records.reserve(vector_size);
    small_records.reserve(vector_size);
    for _ in 0..vector_size {
        let weight = rng.gen::<u64>() % 256;
        let height = rng.gen::<u64>() % 256;
        let day = rng.gen::<u64>() % 32;
        let month = rng.gen::<u64>() % 16;
        let year = rng.gen::<u64>() % 4096;
        large_records.push(LargeRecord::new(weight, height, day, month, year));
        small_records.push(SmallRecord::new(
            weight as u8,
            height as u8,
            day as u8,
            month as u8,
            year as u16,
        ));
    }
    let now = Instant::now();
    large_records.sort_unstable();
    let elapsed = now.elapsed().as_millis();
    println!("sorting vec took: {} ms", elapsed);
    let now = Instant::now();
    small_records.sort_unstable();
    let elapsed = now.elapsed().as_millis();
    println!("sorting vec took: {} ms", elapsed);
}
