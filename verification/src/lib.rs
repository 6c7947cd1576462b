//! A verified decoder for the bencode serialization format.
//!
//! Bencode is a self-describing, length-prefixed binary encoding of
//! integers, byte strings, ordered lists, and dictionaries keyed by byte
//! strings.  The decoder consumes a cursor over a sequence of fallible
//! byte reads and produces a [`BencodeValue`] or a [`DecodeError`].
//!
//! The executable parsers are specified against a mathematical parser
//! over the same grammar (module [`grammar`]): each parsing function is
//! proved to return exactly the value, error, and final cursor position
//! that the specification parser assigns to its input.

pub mod cursor;
pub mod value;
pub mod grammar;
pub mod parser;
pub mod laws;
pub mod metainfo;

pub use cursor::ByteCursor;
pub use cursor::ByteRead;
pub use value::BencodeDict;
pub use value::BencodeValue;
pub use value::DecodeError;
pub use parser::parse_dict;
pub use parser::parse_int;
pub use parser::parse_list;
pub use parser::parse_string;
pub use parser::parse_value;
pub use parser::vec_to_int;
pub use metainfo::bencode_to_metainfo;
pub use metainfo::Metainfo;
