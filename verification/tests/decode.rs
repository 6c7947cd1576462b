//! Tests for the value dispatcher and the container parsers: the
//! documented scenarios, the boundary-case integers, truncated inputs,
//! and every error kind.

use bencode::parse_int;
use bencode::parse_list;
use bencode::parse_string;
use bencode::parse_value;
use bencode::BencodeDict;
use bencode::BencodeValue;
use bencode::ByteCursor;
use bencode::ByteRead;
use bencode::DecodeError;

fn cursor(text: &str) -> ByteCursor {
    ByteCursor::from_bytes(text.as_bytes().to_vec())
}

#[test]
fn test_parse_list_empty() {
    let mut val = cursor("le");
    assert!(parse_list(&mut val).is_ok());
}

#[test]
fn decode_positive_integer() {
    let mut c = cursor("i42e");
    assert_eq!(parse_value(&mut c).unwrap(), BencodeValue::Integer(42));
}

#[test]
fn decode_negative_integer() {
    let mut c = cursor("i-17e");
    assert_eq!(parse_value(&mut c).unwrap(), BencodeValue::Integer(-17));
}

#[test]
fn decode_max_i64() {
    let mut c = cursor("i9223372036854775807e");
    assert_eq!(
        parse_value(&mut c).unwrap(),
        BencodeValue::Integer(9223372036854775807)
    );
}

#[test]
fn decode_twenty_digits_is_too_large() {
    let mut c = cursor("i92233720368547758070e");
    assert_eq!(parse_value(&mut c), Err(DecodeError::IntegerTooLarge));
}

#[test]
fn decode_positive_magnitude_overflow() {
    let mut c = cursor("i9223372036854775808e");
    assert_eq!(parse_value(&mut c), Err(DecodeError::IntegerOverflow));
}

#[test]
fn decode_min_i64() {
    let mut c = cursor("i-9223372036854775808e");
    assert_eq!(
        parse_value(&mut c).unwrap(),
        BencodeValue::Integer(-9223372036854775808)
    );
}

#[test]
fn decode_negative_magnitude_overflow() {
    let mut c = cursor("i-9223372036854775809e");
    assert_eq!(parse_value(&mut c), Err(DecodeError::IntegerOverflow));
}

#[test]
fn decode_byte_string() {
    let mut c = cursor("4:spam");
    assert_eq!(
        parse_value(&mut c).unwrap(),
        BencodeValue::String(b"spam".to_vec())
    );
}

#[test]
fn decode_empty_byte_string() {
    let mut c = cursor("0:");
    assert_eq!(parse_value(&mut c).unwrap(), BencodeValue::String(Vec::new()));
}

#[test]
fn decode_arbitrary_bytes_verbatim() {
    let mut data = b"3:".to_vec();
    data.extend_from_slice(&[0x00, 0xff, 0x80]);
    let mut c = ByteCursor::from_bytes(data);
    assert_eq!(
        parse_value(&mut c).unwrap(),
        BencodeValue::String(vec![0x00, 0xff, 0x80])
    );
}

#[test]
fn decode_empty_list() {
    let mut c = cursor("le");
    assert_eq!(parse_value(&mut c).unwrap(), BencodeValue::List(Vec::new()));
}

#[test]
fn decode_two_element_list_in_order() {
    let mut c = cursor("l4:spam4:eggse");
    assert_eq!(
        parse_value(&mut c).unwrap(),
        BencodeValue::List(vec![
            BencodeValue::String(b"spam".to_vec()),
            BencodeValue::String(b"eggs".to_vec()),
        ])
    );
}

#[test]
fn decode_dictionary() {
    let mut c = cursor("d3:cow3:mooe");
    let expected = BencodeDict::new().insert(b"cow".to_vec(), BencodeValue::String(b"moo".to_vec()));
    assert_eq!(parse_value(&mut c).unwrap(), BencodeValue::Dictionary(expected));
}

#[test]
fn decode_dictionary_duplicate_key_last_write_wins() {
    let mut c = cursor("d3:cow3:moo3:cow3:aaae");
    let expected = BencodeDict::new().insert(b"cow".to_vec(), BencodeValue::String(b"aaa".to_vec()));
    assert_eq!(parse_value(&mut c).unwrap(), BencodeValue::Dictionary(expected));
}

#[test]
fn decode_two_key_dictionary() {
    let mut c = cursor("d3:cow3:moo4:spam4:eggse");
    let expected = BencodeDict::new()
        .insert(b"cow".to_vec(), BencodeValue::String(b"moo".to_vec()))
        .insert(b"spam".to_vec(), BencodeValue::String(b"eggs".to_vec()));
    assert_eq!(parse_value(&mut c).unwrap(), BencodeValue::Dictionary(expected));
}

#[test]
fn decode_empty_dictionary_is_rejected() {
    // the dictionary parser reads a key unconditionally, so `de` fails
    // on the key's length prefix rather than yielding an empty mapping
    let mut c = cursor("de");
    assert_eq!(
        parse_value(&mut c),
        Err(DecodeError::InvalidLengthPrefix(b'e'))
    );
}

#[test]
fn decode_nested_containers() {
    let mut c = cursor("d4:spaml1:a1:bee");
    let expected = BencodeDict::new().insert(
        b"spam".to_vec(),
        BencodeValue::List(vec![
            BencodeValue::String(b"a".to_vec()),
            BencodeValue::String(b"b".to_vec()),
        ]),
    );
    assert_eq!(parse_value(&mut c).unwrap(), BencodeValue::Dictionary(expected));
}

#[test]
fn empty_input_is_end_of_stream() {
    let mut c = cursor("");
    assert_eq!(parse_value(&mut c).unwrap(), BencodeValue::EndOfFile);
}

#[test]
fn concatenated_values_decode_in_sequence() {
    let mut c = cursor("i1ei2e");
    assert_eq!(parse_value(&mut c).unwrap(), BencodeValue::Integer(1));
    assert_eq!(parse_value(&mut c).unwrap(), BencodeValue::Integer(2));
    assert_eq!(parse_value(&mut c).unwrap(), BencodeValue::EndOfFile);
}

#[test]
fn truncated_length_prefix() {
    let mut c = cursor("4");
    assert_eq!(
        parse_value(&mut c),
        Err(DecodeError::UnterminatedLengthPrefix)
    );
}

#[test]
fn truncated_string_body() {
    let mut c = cursor("4:sp");
    assert_eq!(parse_value(&mut c), Err(DecodeError::UnterminatedString));
}

#[test]
fn truncated_integer() {
    let mut c = cursor("i12");
    assert_eq!(parse_value(&mut c), Err(DecodeError::UnterminatedInteger));
}

#[test]
fn truncated_integer_marker_alone() {
    let mut c = cursor("i");
    assert_eq!(parse_value(&mut c), Err(DecodeError::UnterminatedInteger));
}

#[test]
fn list_missing_terminator() {
    let mut c = cursor("l4:spam");
    assert_eq!(parse_value(&mut c), Err(DecodeError::UnterminatedList));
}

#[test]
fn list_marker_alone() {
    let mut c = cursor("l");
    assert_eq!(parse_value(&mut c), Err(DecodeError::UnterminatedList));
}

#[test]
fn dictionary_missing_terminator() {
    let mut c = cursor("d3:cow3:moo");
    assert_eq!(
        parse_value(&mut c),
        Err(DecodeError::UnterminatedDictionary)
    );
}

#[test]
fn invalid_lead_byte() {
    let mut c = cursor("x");
    assert_eq!(parse_value(&mut c), Err(DecodeError::InvalidLeadByte(b'x')));
}

#[test]
fn invalid_length_prefix_byte() {
    let mut c = cursor("1x:a");
    assert_eq!(
        parse_value(&mut c),
        Err(DecodeError::InvalidLengthPrefix(b'x'))
    );
}

#[test]
fn invalid_integer_digit() {
    let mut c = cursor("i12x3e");
    assert_eq!(parse_int(&mut c), Err(DecodeError::InvalidDigit(b'x')));
}

#[test]
fn failed_read_is_source_error() {
    let mut c = ByteCursor::from_reads(vec![ByteRead::Failed]);
    assert_eq!(parse_value(&mut c), Err(DecodeError::SourceRead));
}

#[test]
fn failed_read_inside_string_body() {
    let mut c = ByteCursor::from_reads(vec![
        ByteRead::Got(b'1'),
        ByteRead::Got(b':'),
        ByteRead::Failed,
    ]);
    assert_eq!(parse_string(&mut c), Err(DecodeError::SourceRead));
}

#[test]
fn failed_read_inside_list() {
    let mut c = ByteCursor::from_reads(vec![
        ByteRead::Got(b'l'),
        ByteRead::Got(b'i'),
        ByteRead::Got(b'1'),
        ByteRead::Got(b'e'),
        ByteRead::Failed,
    ]);
    assert_eq!(parse_value(&mut c), Err(DecodeError::SourceRead));
}
