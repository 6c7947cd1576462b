//! Tests for the projection of a decoded dictionary into the
//! application record.

use bencode::bencode_to_metainfo;
use bencode::parse_value;
use bencode::BencodeDict;
use bencode::BencodeValue;
use bencode::ByteCursor;

fn cursor(text: &str) -> ByteCursor {
    ByteCursor::from_bytes(text.as_bytes().to_vec())
}

#[test]
fn metainfo_from_decoded_dictionary() {
    let text = "d8:announce8:http://t4:infod6:lengthi3e4:name4:file12:piece lengthi16e6:pieces3:abcee";
    let mut c = cursor(text);
    let val = parse_value(&mut c).unwrap();
    let m = bencode_to_metainfo(val).unwrap();
    assert_eq!(m.announce, "http://t");
    assert_eq!(m.name, "file");
    assert_eq!(m.piece_length, 16);
    assert_eq!(m.pieces_hash, b"abc".to_vec());
    assert_eq!(m.length, Some(3));
}

#[test]
fn metainfo_without_length() {
    let text = "d8:announce8:http://t4:infod4:name4:file12:piece lengthi16e6:pieces3:abcee";
    let mut c = cursor(text);
    let val = parse_value(&mut c).unwrap();
    let m = bencode_to_metainfo(val).unwrap();
    assert_eq!(m.length, None);
}

#[test]
fn metainfo_rejects_non_dictionary() {
    let e = bencode_to_metainfo(BencodeValue::Integer(1)).unwrap_err();
    assert_eq!(e, "val must be of type Dictionary");
}

#[test]
fn metainfo_rejects_missing_announce() {
    let val = BencodeValue::Dictionary(BencodeDict::new());
    let e = bencode_to_metainfo(val).unwrap_err();
    assert_eq!(e, "Missing announce element");
}

#[test]
fn metainfo_rejects_wrong_announce_type() {
    let dict = BencodeDict::new().insert(b"announce".to_vec(), BencodeValue::Integer(7));
    let e = bencode_to_metainfo(BencodeValue::Dictionary(dict)).unwrap_err();
    assert_eq!(e, "Announce must be String");
}

#[test]
fn metainfo_rejects_missing_info() {
    let dict = BencodeDict::new().insert(
        b"announce".to_vec(),
        BencodeValue::String(b"http://t".to_vec()),
    );
    let e = bencode_to_metainfo(BencodeValue::Dictionary(dict)).unwrap_err();
    assert_eq!(e, "Missing info element");
}

#[test]
fn metainfo_rejects_wrong_length_type() {
    let info = BencodeDict::new()
        .insert(b"name".to_vec(), BencodeValue::String(b"file".to_vec()))
        .insert(b"piece length".to_vec(), BencodeValue::Integer(16))
        .insert(b"pieces".to_vec(), BencodeValue::String(b"abc".to_vec()))
        .insert(b"length".to_vec(), BencodeValue::String(b"3".to_vec()));
    let dict = BencodeDict::new()
        .insert(
            b"announce".to_vec(),
            BencodeValue::String(b"http://t".to_vec()),
        )
        .insert(b"info".to_vec(), BencodeValue::Dictionary(info));
    let e = bencode_to_metainfo(BencodeValue::Dictionary(dict)).unwrap_err();
    assert_eq!(e, "length must be Integer");
}
