use std::collections::HashMap;
use string64::{EncodingError, String64};

fn packed_value(s: &str) -> Result<u64, EncodingError> {
    String64::new(s).map(|v| v.value())
}

#[test]
fn same_result() {
    let s = "hello w";
    let actual1 = String64::new(&s);
    let actual2 = String64::new(&s);
    assert!(actual1.is_ok());
    assert_eq!(actual1, actual2);
}

#[test]
fn no_surprises() {
    // A null byte would be taken for padding, so it is refused in the content.
    let actual1 = String64::new("h");
    let actual2 = String64::new("h\0\0");
    assert!(actual1 != actual2);
    assert_eq!(actual2, Err(EncodingError::EmbeddedNull));
}

#[test]
fn null_byte_string_is_empty() {
    let actual = String64::new("\0\0");
    let expected = String64::new("");
    assert_ne!(actual, expected);
    assert_eq!(actual, Err(EncodingError::EmbeddedNull));
    assert_eq!(expected.map(|v| v.value()), Ok(0));
}

#[test]
fn long_string_is_none() {
    let actual = String64::new("Good day to you from the other side of the World!");
    let expected = Err(EncodingError::TooLong);
    assert_eq!(actual, expected);
}

#[test]
fn a_repeated_string() {
    let actual = packed_value("aaaaaaaa");
    let expected = Ok(0x6161616161616161);
    assert_eq!(actual, expected);
}

#[test]
fn unused_is_null_padded() {
    let actual = packed_value("aaaa");
    let expected = Ok(0x6161616100000000);
    assert_eq!(actual, expected);
}

#[test]
fn four_a_with_ring_above() {
    let actual = packed_value("åååå");
    let expected = Ok(0xc3a5c3a5c3a5c3a5);
    assert_eq!(actual, expected);
}

#[test]
fn five_a_with_ring_above_is_too_long() {
    let actual = String64::new("ååååå");
    assert_eq!(actual, Err(EncodingError::TooLong));
}

#[test]
fn endiannes() {
    let actual = packed_value("aaaabb");
    let expected = Ok(0x6161616162620000);
    assert_eq!(actual, expected);
}

#[test]
fn string() {
    std::str::from_utf8(&[b'h', b'e', b'l', b'l', b'o']).unwrap();
}

#[test]
fn empty_string_is_zero() {
    assert_eq!(packed_value(""), Ok(0));
    assert_eq!(String64::const_new("").value(), 0);
}

#[test]
fn nine_bytes_is_too_long() {
    assert_eq!(String64::new("aaaaaaaaa"), Err(EncodingError::TooLong));
    assert_eq!(String64::new_alt1("aaaaaaaaa"), Err(EncodingError::TooLong));
}

#[test]
fn length_is_checked_before_content() {
    let nine_nulls = "\0\0\0\0\0\0\0\0\0";
    assert_eq!(String64::new(nine_nulls), Err(EncodingError::TooLong));
}

#[test]
fn null_anywhere_is_refused() {
    assert_eq!(String64::new("\0"), Err(EncodingError::EmbeddedNull));
    assert_eq!(String64::new("ab\0cd"), Err(EncodingError::EmbeddedNull));
    assert_eq!(String64::new("abcdefg\0"), Err(EncodingError::EmbeddedNull));
    assert_eq!(String64::new_alt1("abc\0"), Err(EncodingError::EmbeddedNull));
}

#[test]
fn from_bytes_takes_raw_bytes() {
    let actual = String64::from_bytes(&[0xff, 0x01, 0x80]).map(|v| v.value());
    assert_eq!(actual, Ok(0xff01800000000000));
    assert_eq!(
        String64::from_bytes(&[1, 2, 3, 4, 5, 6, 7, 8, 9]),
        Err(EncodingError::TooLong)
    );
    assert_eq!(
        String64::from_bytes(&[1, 0]),
        Err(EncodingError::EmbeddedNull)
    );
}

#[test]
fn single_byte_is_most_significant() {
    assert_eq!(packed_value("h"), Ok(0x6800000000000000));
    assert_eq!(packed_value("hello w"), Ok(0x68656c6c6f207700));
}

#[test]
fn all_constructors_agree() {
    for s in ["", "a", "aaaabb", "hello w", "aaaaaaaa", "åååå", "€uro"] {
        let general = String64::new(s);
        assert_eq!(general, String64::new_alt1(s));
        assert_eq!(general, String64::from_bytes(s.as_bytes()));
        assert_eq!(general, Ok(String64::const_new(s)));
    }
}

#[test]
fn const_new_unrolled_values() {
    assert_eq!(String64::const_new("aaaabb").value(), 0x6161616162620000);
    assert_eq!(String64::const_new("aaaaaaaa").value(), 0x6161616161616161);
    assert_eq!(String64::const_new("åååå").value(), 0xc3a5c3a5c3a5c3a5);
    assert_eq!(String64::const_new("HolaM").value(), 0x486f6c614d000000);
}

#[test]
fn unwrap_gives_the_value() {
    let v = String64::unwrap(String64::new("HolaM"));
    assert_eq!(v, String64::const_new("HolaM"));
    assert_eq!(v.value(), 0x486f6c614d000000);
}

#[test]
fn order_follows_bytes() {
    let ab = String64::new("ab").unwrap().value();
    let b = String64::new("b").unwrap().value();
    let abc = String64::new("abc").unwrap().value();
    assert!(ab < b);
    assert!(ab < abc);
}

#[test]
fn usable_as_map_key() {
    let mut map: HashMap<String64, u64> = HashMap::new();
    for i in 0..1000u64 {
        map.insert(String64::new(&i.to_string()).unwrap(), i);
    }
    assert_eq!(map.len(), 1000);
    for i in 0..1000u64 {
        assert_eq!(map.get(&String64::new(&i.to_string()).unwrap()), Some(&i));
    }
}

fn agrees_with_alt1(s: String) -> bool {
    String64::new(&s) == String64::new_alt1(&s)
}

fn agrees_with_const_new(s: String) -> bool {
    match String64::new(&s) {
        Ok(v) => v == String64::const_new(&s),
        Err(_) => true,
    }
}

fn short_strings_without_null_fit(s: String) -> bool {
    let fits = s.len() <= 8 && !s.as_bytes().contains(&0);
    fits == String64::new(&s).is_ok()
}

fn refusals_have_their_reason(s: String) -> bool {
    match String64::new(&s) {
        Ok(_) => true,
        Err(EncodingError::TooLong) => s.len() > 8,
        Err(EncodingError::EmbeddedNull) => s.len() <= 8 && s.as_bytes().contains(&0),
    }
}

fn equal_values_mean_equal_strings(a: String, b: String) -> bool {
    match (String64::new(&a), String64::new(&b)) {
        (Ok(x), Ok(y)) => (x == y) == (a == b),
        _ => true,
    }
}

#[test]
fn new_and_alt1() {
    quickcheck::quickcheck(agrees_with_alt1 as fn(String) -> bool);
}

#[test]
fn new_and_const_new() {
    quickcheck::quickcheck(agrees_with_const_new as fn(String) -> bool);
}

#[test]
fn unicode_strings_less_than_nine_bytes() {
    quickcheck::quickcheck(short_strings_without_null_fit as fn(String) -> bool);
}

#[test]
fn errors_match_input() {
    quickcheck::quickcheck(refusals_have_their_reason as fn(String) -> bool);
}

#[test]
fn accepted_strings_are_distinct() {
    quickcheck::quickcheck(equal_values_mean_equal_strings as fn(String, String) -> bool);
}
