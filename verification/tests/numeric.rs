//! Tests for the numeric accumulator and the integer parser.

use bencode::parse_int;
use bencode::vec_to_int;
use bencode::ByteCursor;

fn cursor(text: &str) -> ByteCursor {
    ByteCursor::from_bytes(text.as_bytes().to_vec())
}

#[test]
fn test_vec_to_int_positive() {
    assert_eq!(
        vec_to_int(&vec!['1' as u8, '2' as u8, '3' as u8], false).unwrap(),
        123
    );
}

#[test]
fn test_vec_to_int_negative() {
    assert_eq!(
        vec_to_int(&vec!['1' as u8, '2' as u8, '3' as u8], true).unwrap(),
        -123
    );
}

#[test]
fn test_vec_to_int_zero_prefix_positive() {
    assert_eq!(
        vec_to_int(&vec!['0' as u8, '2' as u8, '3' as u8], false).unwrap(),
        23
    );
}

#[test]
fn test_vec_to_int_zero_prefix_negative() {
    assert_eq!(
        vec_to_int(&vec!['0' as u8, '2' as u8, '3' as u8], true).unwrap(),
        -23
    );
}

#[test]
fn test_vec_to_int_zero_positive() {
    assert_eq!(
        vec_to_int(&vec!['0' as u8, '0' as u8, '0' as u8], false).unwrap(),
        0
    );
}

#[test]
fn test_vec_to_int_zero_negative() {
    assert_eq!(
        vec_to_int(&vec!['0' as u8, '0' as u8, '0' as u8], true).unwrap(),
        -0
    );
}

#[test]
fn test_vec_to_int_empty() {
    assert_eq!(vec_to_int(&vec![], true).unwrap(), 0);
}

#[test]
fn test_vec_to_int_max_i64() {
    assert_eq!(
        vec_to_int(
            &vec![
                '9' as u8, '2' as u8, '2' as u8, '3' as u8, '3' as u8, '7' as u8, '2' as u8,
                '0' as u8, '3' as u8, '6' as u8, '8' as u8, '5' as u8, '4' as u8, '7' as u8,
                '7' as u8, '5' as u8, '8' as u8, '0' as u8, '7' as u8,
            ],
            false,
        )
        .unwrap(),
        9223372036854775807
    );
}

#[test]
fn test_vec_to_int_max_i64_and_one_overflow() {
    assert!(vec_to_int(
        &vec![
            '9' as u8, '2' as u8, '2' as u8, '3' as u8, '3' as u8, '7' as u8, '2' as u8, '0' as u8,
            '3' as u8, '6' as u8, '8' as u8, '5' as u8, '4' as u8, '7' as u8, '7' as u8, '5' as u8,
            '8' as u8, '0' as u8, '8' as u8,
        ],
        false,
    )
    .is_err());
}

#[test]
fn test_vec_to_int_min_i64() {
    assert_eq!(
        vec_to_int(
            &vec![
                '9' as u8, '2' as u8, '2' as u8, '3' as u8, '3' as u8, '7' as u8, '2' as u8,
                '0' as u8, '3' as u8, '6' as u8, '8' as u8, '5' as u8, '4' as u8, '7' as u8,
                '7' as u8, '5' as u8, '8' as u8, '0' as u8, '8' as u8,
            ],
            true,
        )
        .unwrap(),
        -9223372036854775808
    );
}

#[test]
fn test_vec_to_int_min_i64_and_minus_one_underflow() {
    assert!(vec_to_int(
        &vec![
            '9' as u8, '2' as u8, '2' as u8, '3' as u8, '3' as u8, '7' as u8, '2' as u8, '0' as u8,
            '3' as u8, '6' as u8, '8' as u8, '5' as u8, '4' as u8, '7' as u8, '7' as u8, '5' as u8,
            '8' as u8, '0' as u8, '9' as u8,
        ],
        true,
    )
    .is_err());
}

#[test]
fn test_parse_int_positive() {
    let mut val = cursor("i123e");
    assert_eq!(parse_int(&mut val).unwrap(), 123);
}

#[test]
fn test_parse_int_negative() {
    let mut val = cursor("i-123e");
    assert_eq!(parse_int(&mut val).unwrap(), -123);
}

#[test]
fn test_parse_int_zero_prefix_positive() {
    // leading zeroes are illegal according to the format grammar; they
    // are accepted as a relaxation and contribute their plain value
    let mut val = cursor("i0123e");
    assert_eq!(parse_int(&mut val).unwrap(), 123);
}

#[test]
fn test_parse_int_zero_prefix_negative() {
    // leading zeroes are illegal according to the format grammar; they
    // are accepted as a relaxation and contribute their plain value
    let mut val = cursor("i-0123e");
    assert_eq!(parse_int(&mut val).unwrap(), -123);
}

#[test]
fn test_parse_int_zero_positive() {
    let mut val = cursor("i0e");
    assert_eq!(parse_int(&mut val).unwrap(), 0);
}

#[test]
fn test_parse_int_zero_negative() {
    // negative zero is illegal according to the format grammar; it is
    // accepted and normalizes to zero
    let mut val = cursor("i-0e");
    assert_eq!(parse_int(&mut val).unwrap(), -0);
    let mut val = cursor("i-0e");
    assert_eq!(parse_int(&mut val).unwrap(), 0);
}

#[test]
fn test_parse_int_empty() {
    // an integer with no digits is treated as zero
    let mut val = cursor("ie");
    assert_eq!(parse_int(&mut val).unwrap(), 0);
}

#[test]
fn test_parse_int_double_start() {
    let mut val = cursor("ii123e");
    assert!(parse_int(&mut val).is_err());
}

#[test]
fn test_parse_int_invalid_digit() {
    let mut val = cursor("i12x3e");
    assert!(parse_int(&mut val).is_err());
}

#[test]
fn test_parse_int_missing_end() {
    let mut val = cursor("i123");
    assert!(parse_int(&mut val).is_err());
}
