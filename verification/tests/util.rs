use hashid_stack::util::{
    checked_pow, contains, make_hash_fast, make_nhash, position_of, shuffle, unhash, DecodeErr,
};

fn shuffled(values: &[u8], salt: &[u8]) -> Vec<u8> {
    let mut values = values.to_vec();
    shuffle(&mut values, salt);
    values
}

#[test]
fn shuffle_gives_the_known_permutations() {
    assert_eq!(shuffled(b"abcdefghij", b"salt"), b"iajecbhdgf");
    assert_eq!(shuffled(b"cfhistuCFHISTU", b"this is my salt"), b"UHuhtcITCsFifS");
    assert_eq!(shuffled(b"ab", b"x"), b"ba");
    assert_eq!(shuffled(b"abc", &[0xff, 0xfe]), b"bca");
    assert_eq!(shuffled(b"0123456789", &[255, 255, 255]), b"5247813096");
}

#[test]
fn shuffle_with_an_empty_salt_changes_nothing() {
    assert_eq!(shuffled(b"abcdefghij", b""), b"abcdefghij");
    assert_eq!(shuffled(b"", b""), b"");
}

#[test]
fn shuffle_of_short_sequences() {
    assert_eq!(shuffled(b"", b"salt"), b"");
    assert_eq!(shuffled(b"a", b"salt"), b"a");
}

#[test]
fn shuffle_is_a_permutation() {
    let all: Vec<u8> = (0..=255).collect();
    let mut mixed = shuffled(&all, b"some salt of some length");
    assert_ne!(mixed, all);
    mixed.sort();
    assert_eq!(mixed, all);
}

#[test]
fn shuffle_gives_the_same_for_the_same() {
    assert_eq!(shuffled(b"abcdefghij", b"salt"), shuffled(b"abcdefghij", b"salt"));
    assert_ne!(shuffled(b"abcdefghij", b"salt"), shuffled(b"abcdefghij", b"sugar"));
}

#[test]
fn the_weighted_hash_sums_the_remainders() {
    assert_eq!(make_nhash(&[]), 0);
    assert_eq!(make_nhash(&[5]), 5);
    assert_eq!(make_nhash(&[1, 2, 3]), 6);
    assert_eq!(make_nhash(&[100, 101, 102, 103]), 0);
    assert_eq!(make_nhash(&[99, 100, 101]), 300);
    assert_eq!(make_nhash(&[250, 250, 250]), 144);
    assert_eq!(make_nhash(&[u64::MAX]), 15);
    assert_eq!(make_nhash(&[u64::MAX; 3]), 144);
}

#[test]
fn the_weighted_hash_of_a_long_list_does_not_overflow() {
    let values = vec![u64::MAX - 1; 100_000];
    let expected: u128 = (0..100_000u128).map(|i| (u64::MAX as u128 - 1) % (i + 100)).sum();
    assert_eq!(make_nhash(&values), expected);
}

fn digits(value: u64, alphabet: &[u8]) -> Vec<u8> {
    let (buffer, start) = make_hash_fast(value, alphabet);
    assert!(start < 32);
    assert!(buffer[..start].iter().all(|b| *b == 0));
    buffer[start..].to_vec()
}

#[test]
fn digits_are_written_most_significant_first() {
    assert_eq!(digits(1234567890, b"0123456789"), b"1234567890");
    assert_eq!(digits(7, b"0123456789"), b"7");
    assert_eq!(digits(u64::MAX, b"0123456789"), b"18446744073709551615");
    assert_eq!(digits(27, b"abcd"), b"bcd");
    assert_eq!(digits(4, b"abcd"), b"ba");
    assert_eq!(digits(3, b"abcd"), b"d");
}

#[test]
fn zero_has_one_digit() {
    assert_eq!(digits(0, b"0123456789"), b"0");
    assert_eq!(digits(0, b"abcd"), b"a");
}

#[test]
fn the_largest_value_fills_the_buffer_in_base_four() {
    let (buffer, start) = make_hash_fast(u64::MAX, b"abcd");
    assert_eq!(start, 0);
    assert_eq!(buffer, [b'd'; 32]);
}

#[test]
fn a_segment_is_read_back() {
    assert_eq!(unhash(b"1234567890", b"0123456789"), Some(1234567890));
    assert_eq!(unhash(b"042", b"0123456789"), Some(42));
    assert_eq!(unhash(b"bcd", b"abcd"), Some(27));
    assert_eq!(unhash(b"18446744073709551615", b"0123456789"), Some(u64::MAX));
    assert_eq!(unhash(b"00000000000000000001", b"0123456789"), Some(1));
}

#[test]
fn the_empty_segment_is_zero() {
    assert_eq!(unhash(b"", b"0123456789"), Some(0));
    assert_eq!(unhash(b"", b""), Some(0));
}

#[test]
fn a_segment_with_a_foreign_symbol_has_no_value() {
    assert_eq!(unhash(b"12a", b"0123456789"), None);
    assert_eq!(unhash(b"bxd", b"abcd"), None);
    assert_eq!(unhash(b"1", b""), None);
}

#[test]
fn a_segment_beyond_64_bits_has_no_value() {
    // The sum does not fit.
    assert_eq!(unhash(b"18446744073709551616", b"0123456789"), None);
    // A product does not fit.
    assert_eq!(unhash(b"20000000000000000000", b"0123456789"), None);
    // The highest power does not fit, though the number is small.
    assert_eq!(unhash(b"000000000000000000001", b"0123456789"), None);
}

#[test]
fn every_value_is_read_back_from_its_digits() {
    let alphabet = b"0123456789abcdefghijklmnopqrstuv";
    for value in [0, 1, 31, 32, 33, 1023, 1024, 1 << 53, i64::MAX as u64, u64::MAX - 1, u64::MAX] {
        assert_eq!(unhash(&digits(value, alphabet), alphabet), Some(value));
        assert_eq!(unhash(&digits(value, b"wxyz"), b"wxyz"), Some(value));
    }
}

#[test]
fn powers_are_checked() {
    assert_eq!(checked_pow(10, 0), Some(1));
    assert_eq!(checked_pow(10, 19), Some(10_000_000_000_000_000_000));
    assert_eq!(checked_pow(10, 20), None);
    assert_eq!(checked_pow(2, 63), Some(1 << 63));
    assert_eq!(checked_pow(2, 64), None);
    assert_eq!(checked_pow(3, 40), Some(12157665459056928801));
    assert_eq!(checked_pow(3, 41), None);
    assert_eq!(checked_pow(0, 0), Some(1));
    assert_eq!(checked_pow(0, 5), Some(0));
    assert_eq!(checked_pow(1, 1000), Some(1));
}

#[test]
fn the_first_occurrence_is_found() {
    assert_eq!(position_of(b"abcabc", b'a'), Some(0));
    assert_eq!(position_of(b"abcabc", b'c'), Some(2));
    assert_eq!(position_of(b"abcabc", b'd'), None);
    assert_eq!(position_of(b"", b'a'), None);
    assert!(contains(b"abc", b'b'));
    assert!(!contains(b"abc", b'B'));
    assert!(!contains(b"", 0));
}

#[test]
fn errors_compare_and_print() {
    assert_eq!(DecodeErr::Hash, DecodeErr::Hash);
    assert_ne!(DecodeErr::TooFew, DecodeErr::TooMany);
    assert_eq!(format!("{:?}", DecodeErr::Value), "Value");
    let copy = DecodeErr::TooMany;
    assert_eq!(copy, DecodeErr::TooMany.clone());
}
