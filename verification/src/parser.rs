//! The executable decoder: the value dispatcher, the four type-specific
//! sub-parsers, and the overflow-checked numeric accumulator.
//!
//! Every function is proved to return exactly the outcome the
//! specification parser in [`crate::grammar`] assigns to its input: the
//! same value or error, and, on success, the same final cursor position.
//! On an error the cursor stands somewhere between where it started and
//! the end of the stream; errors are terminal for a decode, so no caller
//! resumes from that position.

use vstd::prelude::*;

use crate::cursor::ByteCursor;
use crate::cursor::ByteRead;
use crate::grammar::COLON;
use crate::grammar::DIGIT_NINE;
use crate::grammar::DIGIT_ZERO;
use crate::grammar::MARK_DICT;
use crate::grammar::MARK_END;
use crate::grammar::MARK_INT;
use crate::grammar::MARK_LIST;
use crate::grammar::MAX_INT_DIGITS;
use crate::grammar::MINUS;
use crate::grammar::digits_to_int;
use crate::grammar::is_ascii_digit;
use crate::grammar::lemma_digits_prefix_le;
use crate::grammar::lemma_digits_to_int_nonneg;
use crate::grammar::lemma_parse_string_bounds;
use crate::grammar::lemma_parse_value_bounds;
use crate::grammar::rem;
use crate::grammar::spec_len_prefix;
use crate::grammar::spec_parse_dict;
use crate::grammar::spec_parse_int;
use crate::grammar::spec_parse_list;
use crate::grammar::spec_parse_string;
use crate::grammar::spec_parse_value;
use crate::grammar::spec_read_exact;
use crate::grammar::spec_int_digits;
use crate::grammar::spec_vec_to_int;
use crate::grammar::spec_dict_items;
use crate::grammar::spec_list_items;
use crate::grammar::IntStep;
use crate::grammar::LenStep;
use crate::grammar::StrStep;
use crate::grammar::ValStep;
use crate::value::deep_view;
use crate::value::lemma_seq_deep_view_push;
use crate::value::seq_deep_view;
use crate::value::BencodeDict;
use crate::value::BencodeValue;
use crate::value::DecodeError;
use crate::value::SpecValue;

verus! {

/// The numeric accumulator: the signed value written by a sequence of
/// ASCII decimal digits, most significant first, under the given sign.
/// The accumulation is overflow-checked at every step; a magnitude
/// outside the 64-bit range is an overflow error.  An empty sequence
/// yields zero regardless of sign.
pub fn vec_to_int(vec: &Vec<u8>, is_negative: bool) -> (r: Result<i64, DecodeError>)
    requires
        forall|i: int| 0 <= i < vec@.len() ==> is_ascii_digit(vec@[i]),
    ensures
        r == spec_vec_to_int(vec@, is_negative),
{
    let ghost ds = vec@;
    let mut ret: i64 = 0;
    let mut idx: usize = 0;
    while idx < vec.len()
        invariant
            forall|i: int| 0 <= i < ds.len() ==> is_ascii_digit(ds[i]),
            vec@ == ds,
            idx <= ds.len(),
            ret as int == if is_negative {
                -digits_to_int(ds.take(idx as int))
            } else {
                digits_to_int(ds.take(idx as int))
            },
        decreases ds.len() - idx,
    {
        let d = vec[idx];
        proof {
            assert(ds.take(idx as int + 1).drop_last() =~= ds.take(idx as int));
            assert(forall|i: int|
                0 <= i < ds.take(idx as int + 1).len() ==> ds.take(idx as int + 1)[i] == ds[i]);
            lemma_digits_to_int_nonneg(ds.take(idx as int + 1));
            lemma_digits_prefix_le(ds, idx as int + 1);
        }
        let step = match ret.checked_mul(10) {
            Some(v) => v,
            None => {
                return Err(DecodeError::IntegerOverflow);
            },
        };
        ret = if is_negative {
            match step.checked_sub((d - DIGIT_ZERO) as i64) {
                Some(v) => v,
                None => {
                    return Err(DecodeError::IntegerOverflow);
                },
            }
        } else {
            match step.checked_add((d - DIGIT_ZERO) as i64) {
                Some(v) => v,
                None => {
                    return Err(DecodeError::IntegerOverflow);
                },
            }
        };
        idx = idx + 1;
    }
    proof {
        assert(ds.take(ds.len() as int) =~= ds);
    }
    Ok(ret)
}

/// Reads a byte string's decimal length prefix up to its colon,
/// returning the digit bytes.
#[verifier::loop_isolation(false)]
fn read_len_prefix(c: &mut ByteCursor) -> (r: Result<Vec<u8>, DecodeError>)
    ensures
        final(c).stream() == old(c).stream(),
        match spec_len_prefix(old(c).stream(), old(c).pos(), Seq::<u8>::empty()) {
            LenStep::Good { digits, next } => (r matches Ok(d) && d@ == digits && (forall|i: int|
                0 <= i < digits.len() ==> is_ascii_digit(digits[i]))) && final(c).pos() == next,
            LenStep::Bad { err } => r == Err::<Vec<u8>, DecodeError>(err)
                && old(c).pos() <= final(c).pos() <= old(c).stream().len(),
        },
{
    let ghost s = c.stream();
    let ghost pos0 = c.pos();
    proof {
        use_type_invariant(&*c);
    }
    let mut digits: Vec<u8> = Vec::new();
    loop
        invariant
            c.stream() == s,
            pos0 <= c.pos() <= s.len(),
            forall|i: int| 0 <= i < digits@.len() ==> is_ascii_digit(digits@[i]),
            spec_len_prefix(s, c.pos(), digits@) == spec_len_prefix(s, pos0, Seq::<u8>::empty()),
        decreases s.len() - c.pos(),
    {
        match c.next() {
            None => {
                return Err(DecodeError::UnterminatedLengthPrefix);
            },
            Some(ByteRead::Failed) => {
                return Err(DecodeError::SourceRead);
            },
            Some(ByteRead::Got(b)) => {
                if DIGIT_ZERO <= b && b <= DIGIT_NINE {
                    digits.push(b);
                } else if b == COLON {
                    return Ok(digits);
                } else {
                    return Err(DecodeError::InvalidLengthPrefix(b));
                }
            },
        }
    }
}

/// Reads exactly `count` raw bytes, verbatim.
#[verifier::loop_isolation(false)]
fn read_exact(c: &mut ByteCursor, count: i64) -> (r: Result<Vec<u8>, DecodeError>)
    ensures
        final(c).stream() == old(c).stream(),
        match spec_read_exact(old(c).stream(), old(c).pos(), count as int, Seq::<u8>::empty()) {
            StrStep::Good { bytes, next } => (r matches Ok(b) && b@ == bytes) && final(c).pos()
                == next,
            StrStep::Bad { err } => r == Err::<Vec<u8>, DecodeError>(err)
                && old(c).pos() <= final(c).pos() <= old(c).stream().len(),
        },
{
    let ghost s = c.stream();
    let ghost pos0 = c.pos();
    proof {
        use_type_invariant(&*c);
    }
    let mut bytes: Vec<u8> = Vec::new();
    let mut taken: i64 = 0;
    while taken < count
        invariant
            c.stream() == s,
            pos0 <= c.pos() <= s.len(),
            0 <= taken,
            taken <= count || count < 0,
            spec_read_exact(s, c.pos(), count as int - taken as int, bytes@) == spec_read_exact(
                s,
                pos0,
                count as int,
                Seq::<u8>::empty(),
            ),
        decreases count - taken,
    {
        match c.next() {
            None => {
                return Err(DecodeError::UnterminatedString);
            },
            Some(ByteRead::Failed) => {
                return Err(DecodeError::SourceRead);
            },
            Some(ByteRead::Got(b)) => {
                bytes.push(b);
                taken = taken + 1;
            },
        }
    }
    Ok(bytes)
}

/// The string parser: a decimal length prefix terminated by a colon,
/// converted by the numeric accumulator, then exactly that many raw
/// bytes.
pub fn parse_string(c: &mut ByteCursor) -> (r: Result<Vec<u8>, DecodeError>)
    ensures
        final(c).stream() == old(c).stream(),
        match spec_parse_string(old(c).stream(), old(c).pos()) {
            StrStep::Good { bytes, next } => (r matches Ok(b) && b@ == bytes) && final(c).pos()
                == next,
            StrStep::Bad { err } => r == Err::<Vec<u8>, DecodeError>(err)
                && old(c).pos() <= final(c).pos() <= old(c).stream().len(),
        },
{
    let ghost s = c.stream();
    let ghost pos0 = c.pos();
    let digits = match read_len_prefix(c) {
        Ok(d) => d,
        Err(e) => {
            return Err(e);
        },
    };
    proof {
        crate::grammar::lemma_len_prefix_bounds(s, pos0, Seq::<u8>::empty());
    }
    let length = match vec_to_int(&digits, false) {
        Ok(l) => l,
        Err(e) => {
            return Err(e);
        },
    };
    read_exact(c, length)
}

/// The integer parser: the marker byte is consumed unexamined, then an
/// optional minus sign, then decimal digits, capped at nineteen, up to
/// the terminating `e`, converted by the numeric accumulator.  A sign
/// with no digits yields zero; leading zeros and a negative zero are
/// accepted and contribute their plain value.
#[verifier::loop_isolation(false)]
pub fn parse_int(c: &mut ByteCursor) -> (r: Result<i64, DecodeError>)
    ensures
        final(c).stream() == old(c).stream(),
        match spec_parse_int(old(c).stream(), old(c).pos()) {
            IntStep::Good { n, next } => r == Ok::<i64, DecodeError>(n) && final(c).pos() == next,
            IntStep::Bad { err } => r == Err::<i64, DecodeError>(err)
                && old(c).pos() <= final(c).pos() <= old(c).stream().len(),
        },
{
    let ghost s = c.stream();
    let ghost pos0 = c.pos();
    proof {
        use_type_invariant(&*c);
    }
    let _ = c.next();  // the marker byte, discarded unexamined
    let mut is_negative = false;
    let mut cur: u8;
    match c.next() {
        None => {
            return Err(DecodeError::UnterminatedInteger);
        },
        Some(ByteRead::Failed) => {
            return Err(DecodeError::SourceRead);
        },
        Some(ByteRead::Got(b)) => {
            cur = b;
        },
    }
    if cur == MINUS {
        is_negative = true;
        match c.next() {
            None => {
                return Err(DecodeError::UnterminatedInteger);
            },
            Some(ByteRead::Failed) => {
                return Err(DecodeError::SourceRead);
            },
            Some(ByteRead::Got(b)) => {
                cur = b;
            },
        }
    }
    let mut digits: Vec<u8> = Vec::new();
    loop
        invariant
            c.stream() == s,
            pos0 < c.pos() <= s.len(),
            forall|i: int| 0 <= i < digits@.len() ==> is_ascii_digit(digits@[i]),
            spec_int_digits(s, c.pos() - 1, cur, is_negative, digits@) == spec_parse_int(s, pos0),
        decreases s.len() - c.pos(),
    {
        if cur == MARK_END {
            return vec_to_int(&digits, is_negative);
        } else if DIGIT_ZERO <= cur && cur <= DIGIT_NINE {
            if digits.len() >= MAX_INT_DIGITS {
                return Err(DecodeError::IntegerTooLarge);
            }
            digits.push(cur);
            match c.next() {
                None => {
                    return Err(DecodeError::UnterminatedInteger);
                },
                Some(ByteRead::Failed) => {
                    return Err(DecodeError::SourceRead);
                },
                Some(ByteRead::Got(b)) => {
                    cur = b;
                },
            }
        } else {
            return Err(DecodeError::InvalidDigit(cur));
        }
    }
}

/// The value dispatcher: peeks one byte and routes to the sub-parser it
/// starts, returns the end-of-stream sentinel when no input remains,
/// and rejects any byte that starts no production.  Callers invoke it
/// repeatedly against one cursor to decode concatenated top-level
/// values, stopping at the sentinel.
pub fn parse_value(c: &mut ByteCursor) -> (r: Result<BencodeValue, DecodeError>)
    ensures
        final(c).stream() == old(c).stream(),
        match spec_parse_value(old(c).stream(), old(c).pos()) {
            ValStep::Good { v, next } => (r matches Ok(x) && deep_view(x) == v) && final(c).pos()
                == next,
            ValStep::Bad { err } => r == Err::<BencodeValue, DecodeError>(err)
                && old(c).pos() <= final(c).pos() <= old(c).stream().len(),
        },
    decreases rem(old(c).stream(), old(c).pos()), 2int,
{
    proof {
        use_type_invariant(&*c);
    }
    match c.peek() {
        None => Ok(BencodeValue::EndOfFile),
        Some(ByteRead::Failed) => Err(DecodeError::SourceRead),
        Some(ByteRead::Got(b)) => {
            if DIGIT_ZERO <= b && b <= DIGIT_NINE {
                match parse_string(c) {
                    Ok(bytes) => Ok(BencodeValue::String(bytes)),
                    Err(e) => Err(e),
                }
            } else if b == MARK_DICT {
                match parse_dict(c) {
                    Ok(d) => Ok(BencodeValue::Dictionary(d)),
                    Err(e) => Err(e),
                }
            } else if b == MARK_INT {
                match parse_int(c) {
                    Ok(n) => Ok(BencodeValue::Integer(n)),
                    Err(e) => Err(e),
                }
            } else if b == MARK_LIST {
                match parse_list(c) {
                    Ok(xs) => Ok(BencodeValue::List(xs)),
                    Err(e) => Err(e),
                }
            } else {
                Err(DecodeError::InvalidLeadByte(b))
            }
        },
    }
}

/// The list parser: the marker byte is consumed unexamined; an
/// immediate `e` is the empty list; otherwise elements are decoded by
/// the dispatcher until the terminating `e`.
#[verifier::loop_isolation(false)]
pub fn parse_list(c: &mut ByteCursor) -> (r: Result<Vec<BencodeValue>, DecodeError>)
    ensures
        final(c).stream() == old(c).stream(),
        match spec_parse_list(old(c).stream(), old(c).pos()) {
            ValStep::Good { v, next } => (r matches Ok(xs) && SpecValue::List(seq_deep_view(xs@))
                == v) && final(c).pos() == next,
            ValStep::Bad { err } => r == Err::<Vec<BencodeValue>, DecodeError>(err)
                && old(c).pos() <= final(c).pos() <= old(c).stream().len(),
        },
    decreases rem(old(c).stream(), old(c).pos()), 1int,
{
    let ghost s = c.stream();
    let ghost pos0 = c.pos();
    proof {
        use_type_invariant(&*c);
    }
    let _ = c.next();  // the marker byte, discarded unexamined
    match c.peek() {
        None => {
            return Err(DecodeError::UnterminatedList);
        },
        Some(ByteRead::Got(b)) => {
            if b == MARK_END {
                let _ = c.next();
                return Ok(Vec::new());
            }
        },
        Some(ByteRead::Failed) => {},
    }
    let mut items: Vec<BencodeValue> = Vec::new();
    loop
        invariant
            c.stream() == s,
            pos0 < c.pos() <= s.len(),
            spec_parse_list(s, pos0) == spec_list_items(s, c.pos(), seq_deep_view(items@)),
        decreases s.len() - c.pos(),
    {
        let ghost p = c.pos();
        let v = match parse_value(c) {
            Ok(v) => v,
            Err(e) => {
                return Err(e);
            },
        };
        proof {
            lemma_parse_value_bounds(s, p);
            lemma_seq_deep_view_push(items@, v);
        }
        items.push(v);
        match c.peek() {
            None => {
                return Err(DecodeError::UnterminatedList);
            },
            Some(ByteRead::Failed) => {
                return Err(DecodeError::SourceRead);
            },
            Some(ByteRead::Got(b)) => {
                if b == MARK_END {
                    let _ = c.next();
                    return Ok(items);
                }
            },
        }
    }
}

/// The dictionary parser: the marker byte is consumed unexamined;
/// byte-string keys and dispatched values follow until the terminating
/// `e`, a later equal key overwriting the earlier value.
#[verifier::loop_isolation(false)]
pub fn parse_dict(c: &mut ByteCursor) -> (r: Result<BencodeDict, DecodeError>)
    ensures
        final(c).stream() == old(c).stream(),
        match spec_parse_dict(old(c).stream(), old(c).pos()) {
            ValStep::Good { v, next } => (r matches Ok(d) && SpecValue::Dict(d.map_view()) == v)
                && final(c).pos() == next,
            ValStep::Bad { err } => r == Err::<BencodeDict, DecodeError>(err)
                && old(c).pos() <= final(c).pos() <= old(c).stream().len(),
        },
    decreases rem(old(c).stream(), old(c).pos()), 1int,
{
    let ghost s = c.stream();
    let ghost pos0 = c.pos();
    proof {
        use_type_invariant(&*c);
    }
    let _ = c.next();  // the marker byte, discarded unexamined
    let mut dict = BencodeDict::new();
    loop
        invariant
            c.stream() == s,
            pos0 <= c.pos() <= s.len(),
            pos0 < s.len() ==> pos0 < c.pos(),
            spec_parse_dict(s, pos0) == spec_dict_items(s, c.pos(), dict.map_view()),
        decreases s.len() - c.pos(),
    {
        let ghost p = c.pos();
        let key = match parse_string(c) {
            Ok(k) => k,
            Err(e) => {
                return Err(e);
            },
        };
        proof {
            lemma_parse_string_bounds(s, p);
        }
        let ghost kn = c.pos();
        let value = match parse_value(c) {
            Ok(v) => v,
            Err(e) => {
                return Err(e);
            },
        };
        proof {
            lemma_parse_value_bounds(s, kn);
        }
        dict = dict.insert(key, value);
        match c.peek() {
            None => {
                return Err(DecodeError::UnterminatedDictionary);
            },
            Some(ByteRead::Failed) => {
                return Err(DecodeError::SourceRead);
            },
            Some(ByteRead::Got(b)) => {
                if b == MARK_END {
                    let _ = c.next();
                    return Ok(dict);
                }
            },
        }
    }
}

} // verus!
