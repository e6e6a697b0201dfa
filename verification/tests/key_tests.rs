use mini_lsm::error::Error;
use mini_lsm::key::{compare_keys, key_equal, key_less, key_less_eq, KeyOrder};

#[test]
fn keys_are_ordered_byte_by_byte() {
    assert_eq!(compare_keys(b"a", b"b"), KeyOrder::Before);
    assert_eq!(compare_keys(b"b", b"a"), KeyOrder::After);
    assert_eq!(compare_keys(b"ab", b"ab"), KeyOrder::Same);
    assert_eq!(compare_keys(&[0x7f], &[0x80]), KeyOrder::Before);
    assert_eq!(compare_keys(&[0xff], &[0x00, 0xff]), KeyOrder::After);
}

#[test]
fn a_prefix_comes_before_its_extensions() {
    assert_eq!(compare_keys(b"", b"a"), KeyOrder::Before);
    assert_eq!(compare_keys(b"ab", b"abc"), KeyOrder::Before);
    assert_eq!(compare_keys(b"abc", b"ab"), KeyOrder::After);
    assert_eq!(compare_keys(b"", b""), KeyOrder::Same);
}

#[test]
fn the_comparisons_agree_with_the_order_of_slices() {
    let keys: [&[u8]; 6] = [b"", b"a", b"ab", b"b", &[0xff], &[0xff, 0x00]];
    for a in keys {
        for b in keys {
            assert_eq!(key_less(a, b), a < b);
            assert_eq!(key_less_eq(a, b), a <= b);
            assert_eq!(key_equal(a, b), a == b);
        }
    }
}

#[test]
fn every_error_has_its_message() {
    assert_eq!(Error::Io.message(), "i/o error: short read");
    assert_eq!(Error::Corruption.message(), "corruption: malformed table data");
    assert_eq!(Error::InvalidEntry.message(), "invalid entry: out of order or oversized");
    assert_eq!(Error::TooLarge.message(), "table too large for the file format");
    assert_eq!(Error::Fused.message(), "has errored");
}
