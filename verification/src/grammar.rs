//! The specification-level parser: a mathematical description of the
//! bencode grammar over a sequence of byte-read results.
//!
//! Each function here maps a stream and a starting position to the value
//! (or error) the grammar assigns there, together with the position just
//! past the consumed input.  The executable parsers are proved to return
//! exactly these outcomes.

use vstd::prelude::*;

use crate::cursor::ByteRead;
use crate::value::DecodeError;
use crate::value::SpecValue;

verus! {

/// ASCII `'0'`.
pub const DIGIT_ZERO: u8 = 0x30;

/// ASCII `'9'`.
pub const DIGIT_NINE: u8 = 0x39;

/// ASCII `':'`, terminating a byte string's length prefix.
pub const COLON: u8 = 0x3a;

/// ASCII `'-'`, the optional integer sign.
pub const MINUS: u8 = 0x2d;

/// ASCII `'e'`, terminating integers, lists, and dictionaries.
pub const MARK_END: u8 = 0x65;

/// ASCII `'d'`, starting a dictionary.
pub const MARK_DICT: u8 = 0x64;

/// ASCII `'i'`, starting an integer.
pub const MARK_INT: u8 = 0x69;

/// ASCII `'l'`, starting a list.
pub const MARK_LIST: u8 = 0x6c;

/// The cap on an integer's decimal digit count: a cheap pre-filter in
/// front of the overflow-checked accumulation, sufficient to bound a
/// 64-bit magnitude check.
pub const MAX_INT_DIGITS: usize = 19;

/// Whether a byte is an ASCII decimal digit.
pub open spec fn is_ascii_digit(b: u8) -> bool {
    DIGIT_ZERO <= b <= DIGIT_NINE
}

/// The read results not yet consumed at `pos`.
pub open spec fn rem(s: Seq<ByteRead>, pos: int) -> nat {
    if pos <= s.len() {
        (s.len() - pos) as nat
    } else {
        0
    }
}

/// The non-negative integer written by a sequence of ASCII decimal
/// digits, most significant first; an empty sequence writes zero.
pub open spec fn digits_to_int(ds: Seq<u8>) -> int
    decreases ds,
{
    if ds.len() == 0 {
        0
    } else {
        digits_to_int(ds.drop_last()) * 10 + (ds.last() - DIGIT_ZERO)
    }
}

/// What the overflow-checked numeric accumulator returns for a digit
/// sequence and a sign: the signed value, unless its magnitude leaves
/// the 64-bit range.
pub open spec fn spec_vec_to_int(ds: Seq<u8>, is_negative: bool) -> Result<i64, DecodeError> {
    let n = digits_to_int(ds);
    if is_negative {
        if -n >= i64::MIN as int {
            Ok((-n) as i64)
        } else {
            Err(DecodeError::IntegerOverflow)
        }
    } else {
        if n <= i64::MAX as int {
            Ok(n as i64)
        } else {
            Err(DecodeError::IntegerOverflow)
        }
    }
}

/// A digit sequence's value is non-negative.
pub proof fn lemma_digits_to_int_nonneg(ds: Seq<u8>)
    requires
        forall|i: int| 0 <= i < ds.len() ==> is_ascii_digit(ds[i]),
    ensures
        digits_to_int(ds) >= 0,
    decreases ds,
{
    if ds.len() > 0 {
        assert(forall|i: int| 0 <= i < ds.drop_last().len() ==> ds.drop_last()[i] == ds[i]);
        lemma_digits_to_int_nonneg(ds.drop_last());
    }
}

/// A digit sequence is worth at least as much as any of its prefixes:
/// appending digits never shrinks the value.
pub proof fn lemma_digits_prefix_le(ds: Seq<u8>, k: int)
    requires
        forall|i: int| 0 <= i < ds.len() ==> is_ascii_digit(ds[i]),
        0 <= k <= ds.len(),
    ensures
        digits_to_int(ds.take(k)) <= digits_to_int(ds),
    decreases ds,
{
    if k == ds.len() {
        assert(ds.take(k) =~= ds);
    } else {
        let prefix = ds.drop_last();
        assert(forall|i: int| 0 <= i < prefix.len() ==> prefix[i] == ds[i]);
        assert(ds.take(k) =~= prefix.take(k));
        lemma_digits_prefix_le(prefix, k);
        lemma_digits_to_int_nonneg(prefix);
    }
}

/// Outcome of reading a byte string's length prefix.
pub enum LenStep {
    Good { digits: Seq<u8>, next: int },
    Bad { err: DecodeError },
}

/// Outcome of parsing a byte string.
pub enum StrStep {
    Good { bytes: Seq<u8>, next: int },
    Bad { err: DecodeError },
}

/// Outcome of parsing an integer.
pub enum IntStep {
    Good { n: i64, next: int },
    Bad { err: DecodeError },
}

/// Outcome of parsing a value.
pub enum ValStep {
    Good { v: SpecValue, next: int },
    Bad { err: DecodeError },
}

/// Reading a length prefix at `pos`, with the digits `acc` already
/// consumed: digits accumulate until a colon; anything else is an
/// invalid prefix, and end of input leaves the prefix unterminated.
pub open spec fn spec_len_prefix(s: Seq<ByteRead>, pos: int, acc: Seq<u8>) -> LenStep
    decreases rem(s, pos),
{
    if pos < 0 || pos >= s.len() {
        LenStep::Bad { err: DecodeError::UnterminatedLengthPrefix }
    } else {
        match s[pos] {
            ByteRead::Failed => LenStep::Bad { err: DecodeError::SourceRead },
            ByteRead::Got(b) => if is_ascii_digit(b) {
                spec_len_prefix(s, pos + 1, acc.push(b))
            } else if b == COLON {
                LenStep::Good { digits: acc, next: pos + 1 }
            } else {
                LenStep::Bad { err: DecodeError::InvalidLengthPrefix(b) }
            },
        }
    }
}

/// Reading exactly `n` more raw bytes at `pos`, the bytes `acc` already
/// read: end of input before the count is reached leaves the string
/// unterminated.
pub open spec fn spec_read_exact(s: Seq<ByteRead>, pos: int, n: int, acc: Seq<u8>) -> StrStep
    decreases n,
{
    if n <= 0 {
        StrStep::Good { bytes: acc, next: pos }
    } else if pos < 0 || pos >= s.len() {
        StrStep::Bad { err: DecodeError::UnterminatedString }
    } else {
        match s[pos] {
            ByteRead::Failed => StrStep::Bad { err: DecodeError::SourceRead },
            ByteRead::Got(b) => spec_read_exact(s, pos + 1, n - 1, acc.push(b)),
        }
    }
}

/// Parsing a byte string at `pos` (the first length-prefix byte): the
/// decimal length prefix up to a colon, then exactly that many bytes.
pub open spec fn spec_parse_string(s: Seq<ByteRead>, pos: int) -> StrStep {
    match spec_len_prefix(s, pos, Seq::<u8>::empty()) {
        LenStep::Bad { err } => StrStep::Bad { err },
        LenStep::Good { digits, next } => match spec_vec_to_int(digits, false) {
            Err(err) => StrStep::Bad { err },
            Ok(len) => spec_read_exact(s, next, len as int, Seq::<u8>::empty()),
        },
    }
}

/// The integer digit loop: `cur` is the byte consumed at position `q`,
/// `acc` the digits read so far.  The terminator `e` converts the
/// digits; a digit beyond the cap is too large; any other byte is an
/// invalid digit, and end of input leaves the integer unterminated.
pub open spec fn spec_int_digits(
    s: Seq<ByteRead>,
    q: int,
    cur: u8,
    is_negative: bool,
    acc: Seq<u8>,
) -> IntStep
    decreases rem(s, q),
{
    if cur == MARK_END {
        match spec_vec_to_int(acc, is_negative) {
            Ok(n) => IntStep::Good { n, next: q + 1 },
            Err(err) => IntStep::Bad { err },
        }
    } else if is_ascii_digit(cur) {
        if acc.len() >= MAX_INT_DIGITS {
            IntStep::Bad { err: DecodeError::IntegerTooLarge }
        } else if q + 1 < 0 || q + 1 >= s.len() {
            IntStep::Bad { err: DecodeError::UnterminatedInteger }
        } else {
            match s[q + 1] {
                ByteRead::Failed => IntStep::Bad { err: DecodeError::SourceRead },
                ByteRead::Got(b) => spec_int_digits(s, q + 1, b, is_negative, acc.push(cur)),
            }
        }
    } else {
        IntStep::Bad { err: DecodeError::InvalidDigit(cur) }
    }
}

/// Parsing an integer with the cursor at `pos`, the `i` marker: the
/// marker byte is discarded unexamined, then an optional minus sign,
/// then the digit loop.
pub open spec fn spec_parse_int(s: Seq<ByteRead>, pos: int) -> IntStep {
    let q = pos + 1;
    if q < 0 || q >= s.len() {
        IntStep::Bad { err: DecodeError::UnterminatedInteger }
    } else {
        match s[q] {
            ByteRead::Failed => IntStep::Bad { err: DecodeError::SourceRead },
            ByteRead::Got(b) => if b == MINUS {
                if q + 1 >= s.len() {
                    IntStep::Bad { err: DecodeError::UnterminatedInteger }
                } else {
                    match s[q + 1] {
                        ByteRead::Failed => IntStep::Bad { err: DecodeError::SourceRead },
                        ByteRead::Got(b2) => spec_int_digits(s, q + 1, b2, true, Seq::<u8>::empty()),
                    }
                }
            } else {
                spec_int_digits(s, q, b, false, Seq::<u8>::empty())
            },
        }
    }
}

/// Parsing one value with the cursor at `pos`: no input left is the
/// end-of-stream answer; a digit starts a byte string, `d` a
/// dictionary, `i` an integer, `l` a list; any other byte starts no
/// production.
pub open spec fn spec_parse_value(s: Seq<ByteRead>, pos: int) -> ValStep
    decreases rem(s, pos), 2int,
{
    if pos < 0 || pos >= s.len() {
        ValStep::Good { v: SpecValue::Eof, next: pos }
    } else {
        match s[pos] {
            ByteRead::Failed => ValStep::Bad { err: DecodeError::SourceRead },
            ByteRead::Got(b) => if is_ascii_digit(b) {
                match spec_parse_string(s, pos) {
                    StrStep::Good { bytes, next } => ValStep::Good {
                        v: SpecValue::Bytes(bytes),
                        next,
                    },
                    StrStep::Bad { err } => ValStep::Bad { err },
                }
            } else if b == MARK_DICT {
                spec_parse_dict(s, pos)
            } else if b == MARK_INT {
                match spec_parse_int(s, pos) {
                    IntStep::Good { n, next } => ValStep::Good { v: SpecValue::Int(n as int), next },
                    IntStep::Bad { err } => ValStep::Bad { err },
                }
            } else if b == MARK_LIST {
                spec_parse_list(s, pos)
            } else {
                ValStep::Bad { err: DecodeError::InvalidLeadByte(b) }
            },
        }
    }
}

/// Parsing a list with the cursor at `pos`, the `l` marker: the marker
/// is discarded; an immediate `e` (consumed) is the empty list;
/// otherwise elements follow until a terminating `e`, which is
/// consumed.
pub open spec fn spec_parse_list(s: Seq<ByteRead>, pos: int) -> ValStep
    decreases rem(s, pos), 1int,
{
    let q = pos + 1;
    if q >= s.len() {
        ValStep::Bad { err: DecodeError::UnterminatedList }
    } else if s[q] == ByteRead::Got(MARK_END) {
        ValStep::Good { v: SpecValue::List(Seq::<SpecValue>::empty()), next: q + 1 }
    } else {
        spec_list_items(s, q, Seq::<SpecValue>::empty())
    }
}

/// The list element loop at `pos`, the elements `acc` already decoded:
/// one value, then either the terminating `e` (consumed) or the next
/// element; end of input leaves the list unterminated.
pub open spec fn spec_list_items(s: Seq<ByteRead>, pos: int, acc: Seq<SpecValue>) -> ValStep
    decreases rem(s, pos), 3int,
{
    match spec_parse_value(s, pos) {
        ValStep::Bad { err } => ValStep::Bad { err },
        ValStep::Good { v, next } => {
            let acc2 = acc.push(v);
            if next >= s.len() {
                ValStep::Bad { err: DecodeError::UnterminatedList }
            } else {
                match s[next] {
                    ByteRead::Failed => ValStep::Bad { err: DecodeError::SourceRead },
                    ByteRead::Got(b) => if b == MARK_END {
                        ValStep::Good { v: SpecValue::List(acc2), next: next + 1 }
                    } else if next <= pos {
                        // a parsed value always advances the cursor, so
                        // this branch never runs; it discharges the
                        // termination check
                        ValStep::Bad { err: DecodeError::UnterminatedList }
                    } else {
                        spec_list_items(s, next, acc2)
                    },
                }
            }
        },
    }
}

/// Parsing a dictionary with the cursor at `pos`, the `d` marker: the
/// marker is discarded; key/value pairs follow until a terminating `e`,
/// which is consumed.
pub open spec fn spec_parse_dict(s: Seq<ByteRead>, pos: int) -> ValStep
    decreases rem(s, pos), 1int,
{
    let q = pos + 1;
    if q >= s.len() {
        ValStep::Bad { err: DecodeError::UnterminatedLengthPrefix }
    } else {
        spec_dict_items(s, q, Map::<Seq<u8>, SpecValue>::empty())
    }
}

/// The dictionary entry loop at `pos`, the map `acc` already decoded: a
/// byte-string key, then a value, inserted with a later equal key
/// overwriting; then either the terminating `e` (consumed) or the next
/// entry; end of input leaves the dictionary unterminated.
pub open spec fn spec_dict_items(
    s: Seq<ByteRead>,
    pos: int,
    acc: Map<Seq<u8>, SpecValue>,
) -> ValStep
    decreases rem(s, pos), 3int,
{
    match spec_parse_string(s, pos) {
        StrStep::Bad { err } => ValStep::Bad { err },
        StrStep::Good { bytes: key, next: kn } => {
            if kn <= pos || kn > s.len() {
                // a parsed key always advances the cursor and stays in
                // bounds, so this branch never runs; it discharges the
                // termination check
                ValStep::Bad { err: DecodeError::UnterminatedDictionary }
            } else {
                match spec_parse_value(s, kn) {
                    ValStep::Bad { err } => ValStep::Bad { err },
                    ValStep::Good { v, next } => {
                        let acc2 = acc.insert(key, v);
                        if next >= s.len() {
                            ValStep::Bad { err: DecodeError::UnterminatedDictionary }
                        } else {
                            match s[next] {
                                ByteRead::Failed => ValStep::Bad { err: DecodeError::SourceRead },
                                ByteRead::Got(b) => if b == MARK_END {
                                    ValStep::Good { v: SpecValue::Dict(acc2), next: next + 1 }
                                } else if next <= pos {
                                    ValStep::Bad { err: DecodeError::UnterminatedDictionary }
                                } else {
                                    spec_dict_items(s, next, acc2)
                                },
                            }
                        }
                    },
                }
            }
        },
    }
}

/// A successfully read length prefix ends past where it began and
/// within the stream.
pub proof fn lemma_len_prefix_bounds(s: Seq<ByteRead>, pos: int, acc: Seq<u8>)
    ensures
        match spec_len_prefix(s, pos, acc) {
            LenStep::Good { digits, next } => pos < next <= s.len(),
            LenStep::Bad { .. } => true,
        },
    decreases rem(s, pos),
{
    if 0 <= pos < s.len() {
        match s[pos] {
            ByteRead::Failed => {},
            ByteRead::Got(b) => {
                if is_ascii_digit(b) {
                    lemma_len_prefix_bounds(s, pos + 1, acc.push(b));
                }
            },
        }
    }
}

/// A successfully completed exact read ends at or past where it began
/// and within the stream.
pub proof fn lemma_read_exact_bounds(s: Seq<ByteRead>, pos: int, n: int, acc: Seq<u8>)
    requires
        pos <= s.len(),
    ensures
        match spec_read_exact(s, pos, n, acc) {
            StrStep::Good { bytes, next } => pos <= next <= s.len(),
            StrStep::Bad { .. } => true,
        },
    decreases n,
{
    if n > 0 && 0 <= pos < s.len() {
        match s[pos] {
            ByteRead::Failed => {},
            ByteRead::Got(b) => {
                lemma_read_exact_bounds(s, pos + 1, n - 1, acc.push(b));
            },
        }
    }
}

/// A successfully parsed byte string ends past where it began and
/// within the stream.
pub proof fn lemma_parse_string_bounds(s: Seq<ByteRead>, pos: int)
    ensures
        match spec_parse_string(s, pos) {
            StrStep::Good { bytes, next } => pos < next <= s.len(),
            StrStep::Bad { .. } => true,
        },
{
    lemma_len_prefix_bounds(s, pos, Seq::<u8>::empty());
    match spec_len_prefix(s, pos, Seq::<u8>::empty()) {
        LenStep::Good { digits, next } => {
            match spec_vec_to_int(digits, false) {
                Ok(len) => {
                    lemma_read_exact_bounds(s, next, len as int, Seq::<u8>::empty());
                },
                Err(_) => {},
            }
        },
        LenStep::Bad { .. } => {},
    }
}

/// A successfully completed integer digit loop ends past the byte it
/// was given and within the stream.
pub proof fn lemma_int_digits_bounds(s: Seq<ByteRead>, q: int, cur: u8, is_negative: bool, acc: Seq<u8>)
    requires
        q < s.len(),
    ensures
        match spec_int_digits(s, q, cur, is_negative, acc) {
            IntStep::Good { n, next } => q < next <= s.len(),
            IntStep::Bad { .. } => true,
        },
    decreases rem(s, q),
{
    if cur == MARK_END {
    } else if is_ascii_digit(cur) {
        if acc.len() < MAX_INT_DIGITS && 0 <= q + 1 < s.len() {
            match s[q + 1] {
                ByteRead::Failed => {},
                ByteRead::Got(b) => {
                    lemma_int_digits_bounds(s, q + 1, b, is_negative, acc.push(cur));
                },
            }
        }
    }
}

/// A successfully parsed integer ends past its marker byte and within
/// the stream.
pub proof fn lemma_parse_int_bounds(s: Seq<ByteRead>, pos: int)
    ensures
        match spec_parse_int(s, pos) {
            IntStep::Good { n, next } => pos + 1 < next <= s.len(),
            IntStep::Bad { .. } => true,
        },
{
    let q = pos + 1;
    if 0 <= q < s.len() {
        match s[q] {
            ByteRead::Failed => {},
            ByteRead::Got(b) => {
                if b == MINUS {
                    if q + 1 < s.len() {
                        match s[q + 1] {
                            ByteRead::Failed => {},
                            ByteRead::Got(b2) => {
                                lemma_int_digits_bounds(s, q + 1, b2, true, Seq::<u8>::empty());
                            },
                        }
                    }
                } else {
                    lemma_int_digits_bounds(s, q, b, false, Seq::<u8>::empty());
                }
            },
        }
    }
}

/// A successfully parsed value ends within the stream, and strictly
/// advances unless it is the end-of-stream answer.
pub proof fn lemma_parse_value_bounds(s: Seq<ByteRead>, pos: int)
    requires
        0 <= pos <= s.len(),
    ensures
        match spec_parse_value(s, pos) {
            ValStep::Good { v, next } => pos <= next <= s.len() && (pos < s.len() ==> pos < next),
            ValStep::Bad { .. } => true,
        },
    decreases rem(s, pos), 2int,
{
    if pos < s.len() {
        match s[pos] {
            ByteRead::Failed => {},
            ByteRead::Got(b) => {
                if is_ascii_digit(b) {
                    lemma_parse_string_bounds(s, pos);
                } else if b == MARK_DICT {
                    if pos + 1 < s.len() {
                        lemma_dict_items_bounds(s, pos + 1, Map::<Seq<u8>, SpecValue>::empty());
                    }
                } else if b == MARK_INT {
                    lemma_parse_int_bounds(s, pos);
                } else if b == MARK_LIST {
                    if pos + 1 < s.len() && s[pos + 1] != ByteRead::Got(MARK_END) {
                        lemma_list_items_bounds(s, pos + 1, Seq::<SpecValue>::empty());
                    }
                }
            },
        }
    }
}

/// A successfully completed list element loop ends past where it began
/// and within the stream.
pub proof fn lemma_list_items_bounds(s: Seq<ByteRead>, pos: int, acc: Seq<SpecValue>)
    requires
        0 <= pos <= s.len(),
    ensures
        match spec_list_items(s, pos, acc) {
            ValStep::Good { v, next } => pos < next <= s.len(),
            ValStep::Bad { .. } => true,
        },
    decreases rem(s, pos), 3int,
{
    lemma_parse_value_bounds(s, pos);
    match spec_parse_value(s, pos) {
        ValStep::Bad { .. } => {},
        ValStep::Good { v, next } => {
            if next < s.len() {
                match s[next] {
                    ByteRead::Failed => {},
                    ByteRead::Got(b) => {
                        if b != MARK_END && next > pos {
                            lemma_list_items_bounds(s, next, acc.push(v));
                        }
                    },
                }
            }
        },
    }
}

/// A successfully completed dictionary entry loop ends past where it
/// began and within the stream.
pub proof fn lemma_dict_items_bounds(s: Seq<ByteRead>, pos: int, acc: Map<Seq<u8>, SpecValue>)
    requires
        0 <= pos <= s.len(),
    ensures
        match spec_dict_items(s, pos, acc) {
            ValStep::Good { v, next } => pos < next <= s.len(),
            ValStep::Bad { .. } => true,
        },
    decreases rem(s, pos), 3int,
{
    lemma_parse_string_bounds(s, pos);
    match spec_parse_string(s, pos) {
        StrStep::Bad { .. } => {},
        StrStep::Good { bytes: key, next: kn } => {
            if pos < kn <= s.len() {
                lemma_parse_value_bounds(s, kn);
                match spec_parse_value(s, kn) {
                    ValStep::Bad { .. } => {},
                    ValStep::Good { v, next } => {
                        if next < s.len() {
                            match s[next] {
                                ByteRead::Failed => {},
                                ByteRead::Got(b) => {
                                    if b != MARK_END && next > pos {
                                        lemma_dict_items_bounds(s, next, acc.insert(key, v));
                                    }
                                },
                            }
                        }
                    },
                }
            }
        },
    }
}

} // verus!
