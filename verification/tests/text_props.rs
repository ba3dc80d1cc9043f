//! Decimal parsing and formatting, splitting, and affix tests.

use tile3d::text::{
    c_string_bytes, ends_with, parse_decimal_micro, parse_plain_i32, push_micro_decimal,
    push_u64_decimal, split_on_commas, starts_with,
};

fn fmt_micro(v: i64) -> String {
    let mut out = Vec::new();
    push_micro_decimal(&mut out, v);
    String::from_utf8(out).unwrap()
}

#[test]
fn parses_plain_decimals() {
    assert_eq!(parse_decimal_micro(b"30.0"), Some(30_000_000));
    assert_eq!(parse_decimal_micro(b"120.5"), Some(120_500_000));
    assert_eq!(parse_decimal_micro(b"-5.25"), Some(-5_250_000));
    assert_eq!(parse_decimal_micro(b"+3"), Some(3_000_000));
    assert_eq!(parse_decimal_micro(b"3."), Some(3_000_000));
    assert_eq!(parse_decimal_micro(b".5"), Some(500_000));
    assert_eq!(parse_decimal_micro(b"0"), Some(0));
}

#[test]
fn truncates_beyond_six_fraction_digits() {
    assert_eq!(parse_decimal_micro(b"0.0000001"), Some(0));
    assert_eq!(parse_decimal_micro(b"1.2345678"), Some(1_234_567));
}

#[test]
fn rejects_malformed_decimals() {
    assert_eq!(parse_decimal_micro(b""), None);
    assert_eq!(parse_decimal_micro(b"."), None);
    assert_eq!(parse_decimal_micro(b"-"), None);
    assert_eq!(parse_decimal_micro(b"abc"), None);
    assert_eq!(parse_decimal_micro(b"1e5"), None);
    assert_eq!(parse_decimal_micro(b"1.2.3"), None);
    assert_eq!(parse_decimal_micro(b"12 "), None);
}

#[test]
fn rejects_oversized_integer_part() {
    assert_eq!(parse_decimal_micro(b"1000000000000"), None);
    assert_eq!(parse_decimal_micro(b"999999999999"), Some(999_999_999_999_000_000));
}

#[test]
fn formats_micro_decimals() {
    assert_eq!(fmt_micro(1_500_000), "1.500000");
    assert_eq!(fmt_micro(0), "0.000000");
    assert_eq!(fmt_micro(-1), "-0.000001");
    assert_eq!(fmt_micro(-2_000_001), "-2.000001");
    assert_eq!(fmt_micro(120_000_000), "120.000000");
}

#[test]
fn formats_u64_decimals() {
    let mut out = Vec::new();
    push_u64_decimal(&mut out, 0);
    out.push(b' ');
    push_u64_decimal(&mut out, 1234);
    assert_eq!(out, b"0 1234".to_vec());
}

#[test]
fn splits_on_commas() {
    let fields = split_on_commas(b"a,b,,c");
    let fields: Vec<&[u8]> = fields.iter().map(|f| f.as_slice()).collect();
    assert_eq!(fields, vec![b"a" as &[u8], b"b", b"", b"c"]);
    let single = split_on_commas(b"");
    assert_eq!(single.len(), 1);
    assert!(single[0].is_empty());
}

#[test]
fn parses_plain_i32() {
    assert_eq!(parse_plain_i32(b"4326"), Some(4326));
    assert_eq!(parse_plain_i32(b"-12"), Some(-12));
    assert_eq!(parse_plain_i32(b"2147483647"), Some(2147483647));
    assert_eq!(parse_plain_i32(b"2147483648"), None);
    assert_eq!(parse_plain_i32(b"12.5"), None);
    assert_eq!(parse_plain_i32(b""), None);
}

#[test]
fn affix_checks() {
    assert!(ends_with(b"model.osgb", b".osgb"));
    assert!(!ends_with(b"model.osg", b".osgb"));
    assert!(starts_with(b"/out/Data", b"/out"));
    assert!(!starts_with(b"/other", b"/out"));
}

#[test]
fn c_strings_end_with_nul() {
    assert_eq!(c_string_bytes(b"abc"), b"abc\0".to_vec());
    assert_eq!(c_string_bytes(b""), b"\0".to_vec());
}
