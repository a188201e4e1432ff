use bitcodec::integer_codes::lists::group_lists;
use bitcodec::integer_codes::numbers::parse_numbers;
use bitcodec::introduction::bit_vector::{BitVector, BitVectorBuilder};

fn numbers_of(text: &str) -> Option<Vec<u64>> {
    parse_numbers(&text.as_bytes().to_vec())
}

#[test]
fn numbers_one_to_a_line() {
    assert_eq!(numbers_of(""), Some(vec![]));
    assert_eq!(numbers_of("7"), Some(vec![7]));
    assert_eq!(numbers_of("7\n"), Some(vec![7]));
    assert_eq!(numbers_of("5\n5\n5\n8\n8\n100\n"), Some(vec![5, 5, 5, 8, 8, 100]));
    assert_eq!(numbers_of("0\n00012\n+3"), Some(vec![0, 12, 3]));
    assert_eq!(numbers_of("1\r\n2\r\n"), Some(vec![1, 2]));
    assert_eq!(numbers_of("1\r\n2"), Some(vec![1, 2]));
    assert_eq!(
        numbers_of("18446744073709551615\n18446744073709551614"),
        Some(vec![u64::MAX, u64::MAX - 1])
    );
}

#[test]
fn lines_that_hold_no_number() {
    assert_eq!(numbers_of("\n"), None);
    assert_eq!(numbers_of("1\n\n2\n"), None);
    assert_eq!(numbers_of("1\n2\n\n"), None);
    assert_eq!(numbers_of("12a\n"), None);
    assert_eq!(numbers_of(" 12\n"), None);
    assert_eq!(numbers_of("12 \n"), None);
    assert_eq!(numbers_of("-1\n"), None);
    assert_eq!(numbers_of("+\n"), None);
    assert_eq!(numbers_of("\r\n"), None);
    assert_eq!(numbers_of("1\r\n2\r"), None);
    assert_eq!(numbers_of("1\r\r\n"), None);
    assert_eq!(numbers_of("1+2\n"), None);
    assert_eq!(numbers_of("18446744073709551616\n"), None);
    assert_eq!(numbers_of("99999999999999999999\n"), None);
    assert_eq!(numbers_of("184467440737095516150\n"), None);
}

#[test]
fn numbers_group_into_lists() {
    assert_eq!(group_lists(&vec![]), Some(vec![]));
    assert_eq!(group_lists(&vec![0]), Some(vec![vec![]]));
    assert_eq!(
        group_lists(&vec![5, 5, 5, 8, 8, 100, 0, 2, 1, 1]),
        Some(vec![vec![5, 5, 8, 8, 100], vec![], vec![1, 1]])
    );
    assert_eq!(group_lists(&vec![3, 1, 2]), None);
    assert_eq!(group_lists(&vec![1, 1, 1]), None);
    assert_eq!(group_lists(&vec![u64::MAX]), None);
    assert_eq!(group_lists(&vec![0, 0, 0]), Some(vec![vec![], vec![], vec![]]));
}

#[test]
fn save_writes_words_least_significant_byte_first() {
    let mut builder = BitVectorBuilder::new();
    builder.append_bits(0x0102_0304_0506_0708, 64);
    builder.append_bits(0xabc, 12);
    let mut bits = BitVector::new();
    builder.build(&mut bits);
    assert_eq!(
        bits.save(),
        vec![8, 7, 6, 5, 4, 3, 2, 1, 0xbc, 0x0a, 0, 0, 0, 0, 0, 0]
    );
    assert_eq!(BitVector::new().save(), Vec::<u8>::new());
}

#[test]
fn load_reads_whole_words() {
    let mut bits = BitVector::new();
    assert!(bits.load(&vec![8, 7, 6, 5, 4, 3, 2, 1, 0xbc, 0x0a, 0, 0, 0, 0, 0, 0x80]));
    assert_eq!(bits.num_bits(), 128);
    assert_eq!(bits.num_64bit_words(), 2);
    assert_eq!(bits.get_bits(0, 64), 0x0102_0304_0506_0708);
    assert_eq!(bits.get_bits(64, 12), 0xabc);
    assert_eq!(bits.get_bits(76, 52), 1 << 51);
    assert!(!bits.load(&vec![1, 2, 3]));
    assert_eq!(bits.num_bits(), 128);
    assert_eq!(bits.get_bits(0, 64), 0x0102_0304_0506_0708);
    assert!(bits.load(&Vec::new()));
    assert_eq!(bits.num_bits(), 0);
}
