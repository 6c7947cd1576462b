//! Projection of a decoded torrent dictionary into an application
//! record: the announce URL, the name, the piece length, the piece
//! hashes, and the optional total length.

use vstd::prelude::*;

use crate::value::deep_view;
use crate::value::BencodeValue;
use crate::value::SpecValue;

verus! {

/// What `String::from_utf8_lossy` returns for a byte sequence: a
/// function of the bytes alone.
pub uninterp spec fn lossy_utf8_of(bytes: Seq<u8>) -> Seq<char>;

/// Relies on `String::from_utf8_lossy`: the result depends on the input
/// bytes alone, and bytes of valid UTF-8 — in particular, plain ASCII —
/// pass through unchanged.
#[verifier::external_body]
fn utf8_lossy(bytes: &Vec<u8>) -> (r: String)
    ensures
        r@ == lossy_utf8_of(bytes@),
        (forall|i: int| 0 <= i < bytes@.len() ==> bytes@[i] < 0x80) ==> r@ == Seq::new(
            bytes@.len(),
            |i: int| bytes@[i] as char,
        ),
{
    String::from_utf8_lossy(bytes.as_slice()).to_string()
}

/// The bytes of the key `announce`.
pub open spec fn key_announce() -> Seq<u8> {
    seq![0x61u8, 0x6eu8, 0x6eu8, 0x6fu8, 0x75u8, 0x6eu8, 0x63u8, 0x65u8]
}

/// The bytes of the key `info`.
pub open spec fn key_info() -> Seq<u8> {
    seq![0x69u8, 0x6eu8, 0x66u8, 0x6fu8]
}

/// The bytes of the key `name`.
pub open spec fn key_name() -> Seq<u8> {
    seq![0x6eu8, 0x61u8, 0x6du8, 0x65u8]
}

/// The bytes of the key `piece length`.
pub open spec fn key_piece_length() -> Seq<u8> {
    seq![0x70u8, 0x69u8, 0x65u8, 0x63u8, 0x65u8, 0x20u8, 0x6cu8, 0x65u8, 0x6eu8, 0x67u8, 0x74u8, 0x68u8]
}

/// The bytes of the key `pieces`.
pub open spec fn key_pieces() -> Seq<u8> {
    seq![0x70u8, 0x69u8, 0x65u8, 0x63u8, 0x65u8, 0x73u8]
}

/// The bytes of the key `length`.
pub open spec fn key_length() -> Seq<u8> {
    seq![0x6cu8, 0x65u8, 0x6eu8, 0x67u8, 0x74u8, 0x68u8]
}

/// The application record projected out of a decoded torrent
/// dictionary.
#[derive(Debug)]
pub struct Metainfo {
    pub announce: String,
    pub name: String,
    pub piece_length: i64,
    pub pieces_hash: Vec<u8>,
    pub length: Option<i64>,
}

/// The model of the projected record.
pub struct SpecMetainfo {
    pub announce: Seq<char>,
    pub name: Seq<char>,
    pub piece_length: int,
    pub pieces_hash: Seq<u8>,
    pub length: Option<int>,
}

/// The projection's outcome for a decoded value: the record's model, or
/// the message reported for the first requirement the value misses.
pub open spec fn spec_metainfo(v: SpecValue) -> Result<SpecMetainfo, Seq<char>> {
    if !(v is Dict) {
        Err("val must be of type Dictionary"@)
    } else {
        let d = v->Dict_0;
        if !d.contains_key(key_announce()) {
            Err("Missing announce element"@)
        } else if !(d[key_announce()] is Bytes) {
            Err("Announce must be String"@)
        } else if !d.contains_key(key_info()) {
            Err("Missing info element"@)
        } else if !(d[key_info()] is Dict) {
            Err("val must be of type Dictionary"@)
        } else {
            let info = d[key_info()]->Dict_0;
            if !info.contains_key(key_name()) {
                Err("Missing name element"@)
            } else if !(info[key_name()] is Bytes) {
                Err("name must be String"@)
            } else if !info.contains_key(key_piece_length()) {
                Err("Missing name element"@)
            } else if !(info[key_piece_length()] is Int) {
                Err("name must be String"@)
            } else if !info.contains_key(key_pieces()) {
                Err("Missing name element"@)
            } else if !(info[key_pieces()] is Bytes) {
                Err("pieces must be String"@)
            } else if info.contains_key(key_length()) && !(info[key_length()] is Int) {
                Err("length must be Integer"@)
            } else {
                Ok(SpecMetainfo {
                    announce: lossy_utf8_of(d[key_announce()]->Bytes_0),
                    name: lossy_utf8_of(info[key_name()]->Bytes_0),
                    piece_length: info[key_piece_length()]->Int_0,
                    pieces_hash: info[key_pieces()]->Bytes_0,
                    length: if info.contains_key(key_length()) {
                        Some(info[key_length()]->Int_0)
                    } else {
                        None
                    },
                })
            }
        }
    }
}

/// Projects the torrent fields out of a decoded value.  The value must
/// be a dictionary holding a byte-string `announce` and a dictionary
/// `info` with a byte-string `name`, an integer `piece length`, a
/// byte-string `pieces`, and optionally an integer `length`; the first
/// requirement missed is reported as the error.
pub fn bencode_to_metainfo(val: BencodeValue) -> (r: Result<Metainfo, String>)
    ensures
        match spec_metainfo(deep_view(val)) {
            Ok(m) => r matches Ok(x) && x.announce@ == m.announce && x.name@ == m.name
                && x.piece_length as int == m.piece_length && x.pieces_hash@ == m.pieces_hash && m.length == (
            match x.length {
                Some(n) => Some(n as int),
                None => None::<int>,
            }),
            Err(msg) => r matches Err(e) && e@ == msg,
        },
{
    let dict = match val {
        BencodeValue::Dictionary(d) => d,
        _ => {
            return Err("val must be of type Dictionary".to_owned());
        },
    };
    let announce_key: Vec<u8> = vec![0x61u8, 0x6eu8, 0x6eu8, 0x6fu8, 0x75u8, 0x6eu8, 0x63u8, 0x65u8];
    let info_key: Vec<u8> = vec![0x69u8, 0x6eu8, 0x66u8, 0x6fu8];
    let name_key: Vec<u8> = vec![0x6eu8, 0x61u8, 0x6du8, 0x65u8];
    let piece_length_key: Vec<u8> = vec![
        0x70u8,
        0x69u8,
        0x65u8,
        0x63u8,
        0x65u8,
        0x20u8,
        0x6cu8,
        0x65u8,
        0x6eu8,
        0x67u8,
        0x74u8,
        0x68u8,
    ];
    let pieces_key: Vec<u8> = vec![0x70u8, 0x69u8, 0x65u8, 0x63u8, 0x65u8, 0x73u8];
    let length_key: Vec<u8> = vec![0x6cu8, 0x65u8, 0x6eu8, 0x67u8, 0x74u8, 0x68u8];
    proof {
        assert(announce_key@ =~= key_announce());
        assert(info_key@ =~= key_info());
        assert(name_key@ =~= key_name());
        assert(piece_length_key@ =~= key_piece_length());
        assert(pieces_key@ =~= key_pieces());
        assert(length_key@ =~= key_length());
    }
    let (dict, announce_opt) = dict.remove(&announce_key);
    let announce_bytes = match announce_opt {
        Some(BencodeValue::String(b)) => b,
        Some(_) => {
            return Err("Announce must be String".to_owned());
        },
        None => {
            return Err("Missing announce element".to_owned());
        },
    };
    let announce = utf8_lossy(&announce_bytes);
    let (_dict, info_opt) = dict.remove(&info_key);
    let info = match info_opt {
        Some(BencodeValue::Dictionary(d)) => d,
        Some(_) => {
            return Err("val must be of type Dictionary".to_owned());
        },
        None => {
            return Err("Missing info element".to_owned());
        },
    };
    let (info, name_opt) = info.remove(&name_key);
    let name_bytes = match name_opt {
        Some(BencodeValue::String(b)) => b,
        Some(_) => {
            return Err("name must be String".to_owned());
        },
        None => {
            return Err("Missing name element".to_owned());
        },
    };
    let name = utf8_lossy(&name_bytes);
    let (info, piece_length_opt) = info.remove(&piece_length_key);
    let piece_length = match piece_length_opt {
        Some(BencodeValue::Integer(n)) => n,
        Some(_) => {
            return Err("name must be String".to_owned());
        },
        None => {
            return Err("Missing name element".to_owned());
        },
    };
    let (info, pieces_opt) = info.remove(&pieces_key);
    let pieces_hash = match pieces_opt {
        Some(BencodeValue::String(b)) => b,
        Some(_) => {
            return Err("pieces must be String".to_owned());
        },
        None => {
            return Err("Missing name element".to_owned());
        },
    };
    let (_info, length_opt) = info.remove(&length_key);
    let length = match length_opt {
        Some(BencodeValue::Integer(n)) => Some(n),
        Some(_) => {
            return Err("length must be Integer".to_owned());
        },
        None => None,
    };
    Ok(Metainfo { announce, name, piece_length, pieces_hash, length })
}

} // verus!
