//! General properties of the decoder, stated over the specification
//! parser that the executable functions' contracts are phrased in.
//!
//! Together with the contracts in [`crate::parser`], each statement
//! here carries over to the executable decoder: it returns exactly what
//! the specification parser assigns to its input.

use vstd::prelude::*;

use crate::cursor::all_got;
use crate::cursor::ByteRead;
use crate::grammar::digits_to_int;
use crate::grammar::is_ascii_digit;
use crate::grammar::lemma_dict_items_bounds;
use crate::grammar::lemma_int_digits_bounds;
use crate::grammar::lemma_len_prefix_bounds;
use crate::grammar::lemma_list_items_bounds;
use crate::grammar::lemma_parse_int_bounds;
use crate::grammar::lemma_parse_string_bounds;
use crate::grammar::lemma_parse_value_bounds;
use crate::grammar::lemma_read_exact_bounds;
use crate::grammar::rem;
use crate::grammar::spec_dict_items;
use crate::grammar::spec_list_items;
use crate::grammar::spec_parse_dict;
use crate::grammar::spec_parse_list;
use crate::grammar::spec_int_digits;
use crate::grammar::spec_len_prefix;
use crate::grammar::spec_parse_int;
use crate::grammar::spec_parse_string;
use crate::grammar::spec_parse_value;
use crate::grammar::spec_read_exact;
use crate::grammar::spec_vec_to_int;
use crate::grammar::IntStep;
use crate::grammar::LenStep;
use crate::grammar::StrStep;
use crate::grammar::ValStep;
use crate::grammar::COLON;
use crate::grammar::DIGIT_ZERO;
use crate::grammar::MARK_END;
use crate::grammar::MARK_INT;
use crate::grammar::MARK_DICT;
use crate::grammar::MARK_LIST;
use crate::grammar::MINUS;
use crate::value::SpecValue;

verus! {

/// The canonical decimal digits of a non-negative integer: most
/// significant first, no leading zeros, a single `0` for zero.
pub open spec fn dec_digits(n: nat) -> Seq<u8>
    decreases n,
{
    if n < 10 {
        seq![(DIGIT_ZERO + n) as u8]
    } else {
        dec_digits(n / 10).push((DIGIT_ZERO + n % 10) as u8)
    }
}

/// Ten to the given power.
pub open spec fn pow10(k: nat) -> int
    decreases k,
{
    if k == 0 {
        1
    } else {
        10 * pow10((k - 1) as nat)
    }
}

/// The canonical digits are ASCII digits, and there is at least one.
pub proof fn lemma_dec_digits_are_digits(n: nat)
    ensures
        forall|i: int| 0 <= i < dec_digits(n).len() ==> is_ascii_digit(dec_digits(n)[i]),
        dec_digits(n).len() >= 1,
    decreases n,
{
    if n >= 10 {
        lemma_dec_digits_are_digits(n / 10);
    }
}

/// The canonical digits of `n` are worth `n`.
pub proof fn lemma_dec_digits_value(n: nat)
    ensures
        digits_to_int(dec_digits(n)) == n,
    decreases n,
{
    if n < 10 {
        assert(dec_digits(n).drop_last() =~= Seq::<u8>::empty());
        assert(digits_to_int(Seq::<u8>::empty()) == 0);
        assert(digits_to_int(dec_digits(n)) == digits_to_int(Seq::<u8>::empty()) * 10 + ((
        DIGIT_ZERO + n) as u8 - DIGIT_ZERO));
    } else {
        lemma_dec_digits_value(n / 10);
        assert(dec_digits(n).drop_last() =~= dec_digits(n / 10));
        assert(digits_to_int(dec_digits(n)) == digits_to_int(dec_digits(n / 10)) * 10 + ((
        DIGIT_ZERO + n % 10) as u8 - DIGIT_ZERO));
    }
}

/// A number below the `k`-th power of ten has at most `k` canonical
/// digits.
pub proof fn lemma_dec_digits_len(n: nat, k: nat)
    requires
        k >= 1,
        n < pow10(k),
    ensures
        dec_digits(n).len() <= k,
    decreases n,
{
    if n >= 10 {
        assert(pow10(k) == 10 * pow10((k - 1) as nat));
        lemma_dec_digits_len(n / 10, (k - 1) as nat);
    }
}

/// Running the length-prefix reader over the digit run `ds` followed by
/// a colon collects exactly `ds` and stops just past the colon.
pub proof fn lemma_len_prefix_run(s: Seq<ByteRead>, q: int, ds: Seq<u8>, k: int)
    requires
        forall|i: int| 0 <= i < ds.len() ==> is_ascii_digit(ds[i]),
        0 <= k <= ds.len(),
        0 <= q,
        q + (ds.len() - k) + 1 <= s.len(),
        forall|j: int| k <= j < ds.len() ==> s[q + (j - k)] == ByteRead::Got(ds[j]),
        s[q + (ds.len() - k)] == ByteRead::Got(COLON),
    ensures
        spec_len_prefix(s, q, ds.take(k)) == (LenStep::Good {
            digits: ds,
            next: q + (ds.len() - k) + 1,
        }),
    decreases ds.len() - k,
{
    if k == ds.len() {
        assert(s[q] == ByteRead::Got(COLON));
        assert(ds.take(k) =~= ds);
    } else {
        assert(s[q] == ByteRead::Got(ds[k]));
        assert(ds.take(k).push(ds[k]) =~= ds.take(k + 1));
        lemma_len_prefix_run(s, q + 1, ds, k + 1);
    }
}

/// Running the exact reader over a run of plain bytes returns exactly
/// those bytes and stops just past them.
pub proof fn lemma_read_exact_run(s: Seq<ByteRead>, p: int, bytes: Seq<u8>, k: int)
    requires
        0 <= k <= bytes.len(),
        0 <= p,
        p + (bytes.len() - k) <= s.len(),
        forall|j: int| k <= j < bytes.len() ==> s[p + (j - k)] == ByteRead::Got(bytes[j]),
    ensures
        spec_read_exact(s, p, bytes.len() - k, bytes.take(k)) == (StrStep::Good {
            bytes,
            next: p + (bytes.len() - k),
        }),
    decreases bytes.len() - k,
{
    if k == bytes.len() {
        assert(bytes.take(k) =~= bytes);
    } else {
        assert(s[p] == ByteRead::Got(bytes[k]));
        assert(bytes.take(k).push(bytes[k]) =~= bytes.take(k + 1));
        lemma_read_exact_run(s, p + 1, bytes, k + 1);
    }
}

/// Running the integer digit loop over the digit run `ds` followed by
/// the terminator hands `ds` to the numeric accumulator and stops just
/// past the terminator.
pub proof fn lemma_int_digits_run(s: Seq<ByteRead>, q: int, ds: Seq<u8>, k: int, neg: bool)
    requires
        forall|i: int| 0 <= i < ds.len() ==> is_ascii_digit(ds[i]),
        ds.len() <= 19,
        0 <= k <= ds.len(),
        0 <= q,
        q + (ds.len() - k) < s.len(),
        forall|j: int| k <= j < ds.len() ==> s[q + (j - k)] == ByteRead::Got(ds[j]),
        s[q + (ds.len() - k)] == ByteRead::Got(MARK_END),
    ensures
        spec_int_digits(
            s,
            q,
            if k < ds.len() {
                ds[k]
            } else {
                MARK_END
            },
            neg,
            ds.take(k),
        ) == (match spec_vec_to_int(ds, neg) {
            Ok(n) => IntStep::Good { n, next: q + (ds.len() - k) + 1 },
            Err(err) => IntStep::Bad { err },
        }),
    decreases ds.len() - k,
{
    if k == ds.len() {
        assert(ds.take(k) =~= ds);
    } else {
        assert(s[q] == ByteRead::Got(ds[k]));
        assert(ds.take(k).push(ds[k]) =~= ds.take(k + 1));
        lemma_int_digits_run(s, q + 1, ds, k + 1, neg);
    }
}

/// Reading a length prefix never looks past where it stops: truncating
/// the stream anywhere at or beyond a successful read's end leaves its
/// outcome unchanged.
pub proof fn lemma_len_prefix_stable(s: Seq<ByteRead>, pos: int, acc: Seq<u8>, j: int)
    requires
        spec_len_prefix(s, pos, acc) matches LenStep::Good { digits, next } && next <= j <= s.len(),
    ensures
        spec_len_prefix(s.take(j), pos, acc) == spec_len_prefix(s, pos, acc),
    decreases rem(s, pos),
{
    lemma_len_prefix_bounds(s, pos, acc);
    assert(0 <= pos < s.len());
    assert(s.take(j)[pos] == s[pos]);
    match s[pos] {
        ByteRead::Failed => {},
        ByteRead::Got(b) => {
            if is_ascii_digit(b) {
                lemma_len_prefix_bounds(s, pos + 1, acc.push(b));
                lemma_len_prefix_stable(s, pos + 1, acc.push(b), j);
            }
        },
    }
}

/// The exact reader never looks past where it stops: truncating the
/// stream anywhere at or beyond a successful read's end leaves its
/// outcome unchanged.
pub proof fn lemma_read_exact_stable(s: Seq<ByteRead>, pos: int, n: int, acc: Seq<u8>, j: int)
    requires
        0 <= pos <= s.len(),
        spec_read_exact(s, pos, n, acc) matches StrStep::Good { bytes, next } && next <= j
            <= s.len(),
    ensures
        spec_read_exact(s.take(j), pos, n, acc) == spec_read_exact(s, pos, n, acc),
    decreases n,
{
    if n > 0 {
        assert(0 <= pos < s.len());
        match s[pos] {
            ByteRead::Failed => {},
            ByteRead::Got(b) => {
                lemma_read_exact_bounds(s, pos + 1, n - 1, acc.push(b));
                assert(pos < j);
                assert(s.take(j)[pos] == s[pos]);
                lemma_read_exact_stable(s, pos + 1, n - 1, acc.push(b), j);
            },
        }
    }
}

/// The string parser never looks past where it stops.
pub proof fn lemma_parse_string_stable(s: Seq<ByteRead>, pos: int, j: int)
    requires
        spec_parse_string(s, pos) matches StrStep::Good { bytes, next } && next <= j <= s.len(),
    ensures
        spec_parse_string(s.take(j), pos) == spec_parse_string(s, pos),
{
    lemma_len_prefix_bounds(s, pos, Seq::<u8>::empty());
    match spec_len_prefix(s, pos, Seq::<u8>::empty()) {
        LenStep::Bad { .. } => {},
        LenStep::Good { digits, next: pn } => {
            match spec_vec_to_int(digits, false) {
                Err(_) => {},
                Ok(len) => {
                    lemma_read_exact_bounds(s, pn, len as int, Seq::<u8>::empty());
                    lemma_len_prefix_stable(s, pos, Seq::<u8>::empty(), j);
                    lemma_read_exact_stable(s, pn, len as int, Seq::<u8>::empty(), j);
                },
            }
        },
    }
}

/// The integer digit loop never looks past where it stops.
pub proof fn lemma_int_digits_stable(
    s: Seq<ByteRead>,
    q: int,
    cur: u8,
    neg: bool,
    acc: Seq<u8>,
    j: int,
)
    requires
        q < s.len(),
        spec_int_digits(s, q, cur, neg, acc) matches IntStep::Good { n, next } && next <= j
            <= s.len(),
    ensures
        spec_int_digits(s.take(j), q, cur, neg, acc) == spec_int_digits(s, q, cur, neg, acc),
    decreases rem(s, q),
{
    lemma_int_digits_bounds(s, q, cur, neg, acc);
    if cur == MARK_END {
    } else if is_ascii_digit(cur) {
        if acc.len() < 19 && q + 1 < s.len() {
            match s[q + 1] {
                ByteRead::Failed => {},
                ByteRead::Got(b) => {
                    lemma_int_digits_bounds(s, q + 1, b, neg, acc.push(cur));
                    assert(q + 1 < j);
                    assert(s.take(j)[q + 1] == s[q + 1]);
                    lemma_int_digits_stable(s, q + 1, b, neg, acc.push(cur), j);
                },
            }
        }
    }
}

/// The integer parser never looks past where it stops.
pub proof fn lemma_parse_int_stable(s: Seq<ByteRead>, pos: int, j: int)
    requires
        spec_parse_int(s, pos) matches IntStep::Good { n, next } && next <= j <= s.len(),
    ensures
        spec_parse_int(s.take(j), pos) == spec_parse_int(s, pos),
{
    lemma_parse_int_bounds(s, pos);
    let q = pos + 1;
    assert(0 <= q < s.len());
    assert(s.take(j)[q] == s[q]);
    match s[q] {
        ByteRead::Failed => {},
        ByteRead::Got(b) => {
            if b == MINUS {
                if q + 1 < s.len() {
                    match s[q + 1] {
                        ByteRead::Failed => {},
                        ByteRead::Got(b2) => {
                            lemma_int_digits_bounds(s, q + 1, b2, true, Seq::<u8>::empty());
                            assert(q + 1 < j);
                            assert(s.take(j)[q + 1] == s[q + 1]);
                            lemma_int_digits_stable(s, q + 1, b2, true, Seq::<u8>::empty(), j);
                        },
                    }
                }
            } else {
                lemma_int_digits_stable(s, q, b, false, Seq::<u8>::empty(), j);
            }
        },
    }
}

/// The dispatcher never looks past where it stops: truncating the
/// stream anywhere at or beyond a successfully parsed value's end
/// leaves its outcome unchanged.
pub proof fn lemma_parse_value_stable(s: Seq<ByteRead>, pos: int, j: int)
    requires
        0 <= pos,
        spec_parse_value(s, pos) matches ValStep::Good { v, next } && next <= j <= s.len(),
    ensures
        spec_parse_value(s.take(j), pos) == spec_parse_value(s, pos),
    decreases rem(s, pos), 2int,
{
    if pos >= s.len() {
        assert(j == s.len());
        assert(s.take(j) =~= s);
    } else {
        lemma_parse_value_bounds(s, pos);
        assert(pos < j);
        assert(s.take(j)[pos] == s[pos]);
        match s[pos] {
            ByteRead::Failed => {},
            ByteRead::Got(b) => {
                if is_ascii_digit(b) {
                    lemma_parse_string_stable(s, pos, j);
                } else if b == MARK_DICT {
                    lemma_parse_dict_stable(s, pos, j);
                } else if b == MARK_INT {
                    lemma_parse_int_stable(s, pos, j);
                } else if b == MARK_LIST {
                    lemma_parse_list_stable(s, pos, j);
                }
            },
        }
    }
}

/// The list parser never looks past where it stops.
pub proof fn lemma_parse_list_stable(s: Seq<ByteRead>, pos: int, j: int)
    requires
        0 <= pos,
        spec_parse_list(s, pos) matches ValStep::Good { v, next } && next <= j <= s.len(),
    ensures
        spec_parse_list(s.take(j), pos) == spec_parse_list(s, pos),
    decreases rem(s, pos), 1int,
{
    let q = pos + 1;
    if q < s.len() && s[q] == ByteRead::Got(MARK_END) {
        assert(q < j);
        assert(s.take(j)[q] == s[q]);
    } else {
        lemma_list_items_bounds(s, q, Seq::<SpecValue>::empty());
        assert(q < j);
        assert(s.take(j)[q] == s[q]);
        lemma_list_items_stable(s, q, Seq::<SpecValue>::empty(), j);
    }
}

/// The dictionary parser never looks past where it stops.
pub proof fn lemma_parse_dict_stable(s: Seq<ByteRead>, pos: int, j: int)
    requires
        0 <= pos,
        spec_parse_dict(s, pos) matches ValStep::Good { v, next } && next <= j <= s.len(),
    ensures
        spec_parse_dict(s.take(j), pos) == spec_parse_dict(s, pos),
    decreases rem(s, pos), 1int,
{
    let q = pos + 1;
    lemma_dict_items_bounds(s, q, Map::<Seq<u8>, SpecValue>::empty());
    assert(q < j);
    lemma_dict_items_stable(s, q, Map::<Seq<u8>, SpecValue>::empty(), j);
}

/// The list element loop never looks past where it stops.
pub proof fn lemma_list_items_stable(s: Seq<ByteRead>, pos: int, acc: Seq<SpecValue>, j: int)
    requires
        0 <= pos <= s.len(),
        spec_list_items(s, pos, acc) matches ValStep::Good { v, next } && next <= j <= s.len(),
    ensures
        spec_list_items(s.take(j), pos, acc) == spec_list_items(s, pos, acc),
    decreases rem(s, pos), 3int,
{
    lemma_parse_value_bounds(s, pos);
    match spec_parse_value(s, pos) {
        ValStep::Bad { .. } => {},
        ValStep::Good { v, next: n1 } => {
            let acc2 = acc.push(v);
            assert(n1 < s.len());
            match s[n1] {
                ByteRead::Failed => {},
                ByteRead::Got(b) => {
                    if b == MARK_END {
                        lemma_parse_value_stable(s, pos, j);
                        assert(n1 < j);
                        assert(s.take(j)[n1] == s[n1]);
                    } else {
                        assert(n1 > pos);
                        lemma_list_items_bounds(s, n1, acc2);
                        lemma_parse_value_stable(s, pos, j);
                        assert(n1 < j);
                        assert(s.take(j)[n1] == s[n1]);
                        lemma_list_items_stable(s, n1, acc2, j);
                    }
                },
            }
        },
    }
}

/// The dictionary entry loop never looks past where it stops.
pub proof fn lemma_dict_items_stable(
    s: Seq<ByteRead>,
    pos: int,
    acc: Map<Seq<u8>, SpecValue>,
    j: int,
)
    requires
        0 <= pos <= s.len(),
        spec_dict_items(s, pos, acc) matches ValStep::Good { v, next } && next <= j <= s.len(),
    ensures
        spec_dict_items(s.take(j), pos, acc) == spec_dict_items(s, pos, acc),
    decreases rem(s, pos), 3int,
{
    lemma_parse_string_bounds(s, pos);
    match spec_parse_string(s, pos) {
        StrStep::Bad { .. } => {},
        StrStep::Good { bytes: key, next: kn } => {
            lemma_parse_value_bounds(s, kn);
            match spec_parse_value(s, kn) {
                ValStep::Bad { .. } => {},
                ValStep::Good { v, next: n1 } => {
                    let acc2 = acc.insert(key, v);
                    assert(n1 < s.len());
                    match s[n1] {
                        ByteRead::Failed => {},
                        ByteRead::Got(b) => {
                            if b == MARK_END {
                                lemma_parse_string_stable(s, pos, j);
                                lemma_parse_value_stable(s, kn, j);
                                assert(n1 < j);
                                assert(s.take(j)[n1] == s[n1]);
                            } else {
                                assert(n1 > pos);
                                lemma_dict_items_bounds(s, n1, acc2);
                                lemma_parse_string_stable(s, pos, j);
                                lemma_parse_value_stable(s, kn, j);
                                assert(n1 < j);
                                assert(s.take(j)[n1] == s[n1]);
                                lemma_dict_items_stable(s, n1, acc2, j);
                            }
                        },
                    }
                },
            }
        },
    }
}

/// Cutting the stream strictly inside a successful length-prefix read
/// turns it into an error.
pub proof fn lemma_len_prefix_truncated(s: Seq<ByteRead>, pos: int, acc: Seq<u8>, j: int)
    requires
        spec_len_prefix(s, pos, acc) matches LenStep::Good { digits, next } && pos <= j < next,
    ensures
        spec_len_prefix(s.take(j), pos, acc) matches LenStep::Bad { err },
    decreases rem(s, pos),
{
    lemma_len_prefix_bounds(s, pos, acc);
    if j == pos {
    } else {
        assert(s.take(j)[pos] == s[pos]);
        match s[pos] {
            ByteRead::Failed => {},
            ByteRead::Got(b) => {
                if is_ascii_digit(b) {
                    lemma_len_prefix_truncated(s, pos + 1, acc.push(b), j);
                }
            },
        }
    }
}

/// Cutting the stream strictly inside a successful exact read turns it
/// into an error.
pub proof fn lemma_read_exact_truncated(s: Seq<ByteRead>, pos: int, n: int, acc: Seq<u8>, j: int)
    requires
        0 <= pos <= s.len(),
        spec_read_exact(s, pos, n, acc) matches StrStep::Good { bytes, next } && pos <= j < next,
    ensures
        spec_read_exact(s.take(j), pos, n, acc) matches StrStep::Bad { err },
    decreases n,
{
    lemma_read_exact_bounds(s, pos, n, acc);
    assert(n > 0);
    assert(0 <= pos < s.len());
    if j == pos {
    } else {
        assert(s.take(j)[pos] == s[pos]);
        match s[pos] {
            ByteRead::Failed => {},
            ByteRead::Got(b) => {
                lemma_read_exact_truncated(s, pos + 1, n - 1, acc.push(b), j);
            },
        }
    }
}

/// Cutting the stream strictly inside a successfully parsed byte
/// string turns it into an error.
pub proof fn lemma_parse_string_truncated(s: Seq<ByteRead>, pos: int, j: int)
    requires
        spec_parse_string(s, pos) matches StrStep::Good { bytes, next } && pos <= j < next,
    ensures
        spec_parse_string(s.take(j), pos) matches StrStep::Bad { err },
{
    lemma_len_prefix_bounds(s, pos, Seq::<u8>::empty());
    match spec_len_prefix(s, pos, Seq::<u8>::empty()) {
        LenStep::Bad { .. } => {},
        LenStep::Good { digits, next: pn } => {
            match spec_vec_to_int(digits, false) {
                Err(_) => {},
                Ok(len) => {
                    lemma_read_exact_bounds(s, pn, len as int, Seq::<u8>::empty());
                    if j < pn {
                        lemma_len_prefix_truncated(s, pos, Seq::<u8>::empty(), j);
                    } else {
                        lemma_len_prefix_stable(s, pos, Seq::<u8>::empty(), j);
                        lemma_read_exact_truncated(s, pn, len as int, Seq::<u8>::empty(), j);
                    }
                },
            }
        },
    }
}

/// Cutting the stream strictly inside a successfully completed integer
/// digit loop turns it into an error.
pub proof fn lemma_int_digits_truncated(
    s: Seq<ByteRead>,
    q: int,
    cur: u8,
    neg: bool,
    acc: Seq<u8>,
    j: int,
)
    requires
        0 <= q < s.len(),
        spec_int_digits(s, q, cur, neg, acc) matches IntStep::Good { n, next } && q < j < next,
    ensures
        spec_int_digits(s.take(j), q, cur, neg, acc) matches IntStep::Bad { err },
    decreases rem(s, q),
{
    lemma_int_digits_bounds(s, q, cur, neg, acc);
    if cur == MARK_END {
    } else if is_ascii_digit(cur) {
        if acc.len() < 19 && q + 1 < s.len() {
            match s[q + 1] {
                ByteRead::Failed => {},
                ByteRead::Got(b) => {
                    lemma_int_digits_bounds(s, q + 1, b, neg, acc.push(cur));
                    if j == q + 1 {
                    } else {
                        assert(s.take(j)[q + 1] == s[q + 1]);
                        lemma_int_digits_truncated(s, q + 1, b, neg, acc.push(cur), j);
                    }
                },
            }
        }
    }
}

/// Cutting the stream strictly inside a successfully parsed integer
/// turns it into an error.
pub proof fn lemma_parse_int_truncated(s: Seq<ByteRead>, pos: int, j: int)
    requires
        spec_parse_int(s, pos) matches IntStep::Good { n, next } && pos < j < next,
    ensures
        spec_parse_int(s.take(j), pos) matches IntStep::Bad { err },
{
    lemma_parse_int_bounds(s, pos);
    let q = pos + 1;
    assert(0 <= q < s.len());
    if j == q {
    } else {
        assert(s.take(j)[q] == s[q]);
        match s[q] {
            ByteRead::Failed => {},
            ByteRead::Got(b) => {
                if b == MINUS {
                    if q + 1 < s.len() {
                        match s[q + 1] {
                            ByteRead::Failed => {},
                            ByteRead::Got(b2) => {
                                lemma_int_digits_bounds(s, q + 1, b2, true, Seq::<u8>::empty());
                                if j == q + 1 {
                                } else {
                                    assert(s.take(j)[q + 1] == s[q + 1]);
                                    lemma_int_digits_truncated(
                                        s,
                                        q + 1,
                                        b2,
                                        true,
                                        Seq::<u8>::empty(),
                                        j,
                                    );
                                }
                            },
                        }
                    }
                } else {
                    lemma_int_digits_truncated(s, q, b, false, Seq::<u8>::empty(), j);
                }
            },
        }
    }
}

/// Truncated input never yields a partial value: cutting the stream at
/// any boundary strictly inside a decodable value — mid length-prefix,
/// mid string body, mid integer, or before a list's or dictionary's
/// terminating `e` — makes the decode fail with an error.
pub proof fn lemma_parse_value_truncated(s: Seq<ByteRead>, pos: int, j: int)
    requires
        0 <= pos,
        spec_parse_value(s, pos) matches ValStep::Good { v, next } && pos < j < next,
    ensures
        spec_parse_value(s.take(j), pos) matches ValStep::Bad { err },
    decreases rem(s, pos), 2int,
{
    lemma_parse_value_bounds(s, pos);
    assert(pos < s.len());
    assert(s.take(j)[pos] == s[pos]);
    match s[pos] {
        ByteRead::Failed => {},
        ByteRead::Got(b) => {
            if is_ascii_digit(b) {
                lemma_parse_string_truncated(s, pos, j);
            } else if b == MARK_DICT {
                lemma_parse_dict_truncated(s, pos, j);
            } else if b == MARK_INT {
                lemma_parse_int_truncated(s, pos, j);
            } else if b == MARK_LIST {
                lemma_parse_list_truncated(s, pos, j);
            }
        },
    }
}

/// Cutting the stream strictly inside a successfully parsed list turns
/// it into an error.
pub proof fn lemma_parse_list_truncated(s: Seq<ByteRead>, pos: int, j: int)
    requires
        0 <= pos,
        spec_parse_list(s, pos) matches ValStep::Good { v, next } && pos < j < next,
    ensures
        spec_parse_list(s.take(j), pos) matches ValStep::Bad { err },
    decreases rem(s, pos), 1int,
{
    let q = pos + 1;
    if q < s.len() && s[q] == ByteRead::Got(MARK_END) {
        assert(j == q);
    } else {
        lemma_list_items_bounds(s, q, Seq::<SpecValue>::empty());
        if j > q {
            assert(s.take(j)[q] == s[q]);
            lemma_list_items_truncated(s, q, Seq::<SpecValue>::empty(), j);
        }
    }
}

/// Cutting the stream strictly inside a successfully parsed dictionary
/// turns it into an error.
pub proof fn lemma_parse_dict_truncated(s: Seq<ByteRead>, pos: int, j: int)
    requires
        0 <= pos,
        spec_parse_dict(s, pos) matches ValStep::Good { v, next } && pos < j < next,
    ensures
        spec_parse_dict(s.take(j), pos) matches ValStep::Bad { err },
    decreases rem(s, pos), 1int,
{
    let q = pos + 1;
    lemma_dict_items_bounds(s, q, Map::<Seq<u8>, SpecValue>::empty());
    if j > q {
        lemma_dict_items_truncated(s, q, Map::<Seq<u8>, SpecValue>::empty(), j);
    }
}

/// Cutting the stream strictly inside a successfully completed list
/// element loop turns it into an error.
pub proof fn lemma_list_items_truncated(s: Seq<ByteRead>, pos: int, acc: Seq<SpecValue>, j: int)
    requires
        0 <= pos <= s.len(),
        spec_list_items(s, pos, acc) matches ValStep::Good { v, next } && pos <= j < next,
    ensures
        spec_list_items(s.take(j), pos, acc) matches ValStep::Bad { err },
    decreases rem(s, pos), 3int,
{
    lemma_parse_value_bounds(s, pos);
    match spec_parse_value(s, pos) {
        ValStep::Bad { .. } => {},
        ValStep::Good { v, next: n1 } => {
            let acc2 = acc.push(v);
            assert(n1 < s.len());
            match s[n1] {
                ByteRead::Failed => {},
                ByteRead::Got(b) => {
                    if j == pos {
                    } else if j < n1 {
                        lemma_parse_value_truncated(s, pos, j);
                    } else if b == MARK_END {
                        assert(j == n1);
                        lemma_parse_value_stable(s, pos, j);
                    } else {
                        assert(n1 > pos);
                        lemma_list_items_bounds(s, n1, acc2);
                        lemma_parse_value_stable(s, pos, j);
                        if j == n1 {
                        } else {
                            assert(s.take(j)[n1] == s[n1]);
                            lemma_list_items_truncated(s, n1, acc2, j);
                        }
                    }
                },
            }
        },
    }
}

/// Cutting the stream strictly inside a successfully completed
/// dictionary entry loop turns it into an error.
pub proof fn lemma_dict_items_truncated(
    s: Seq<ByteRead>,
    pos: int,
    acc: Map<Seq<u8>, SpecValue>,
    j: int,
)
    requires
        0 <= pos <= s.len(),
        spec_dict_items(s, pos, acc) matches ValStep::Good { v, next } && pos <= j < next,
    ensures
        spec_dict_items(s.take(j), pos, acc) matches ValStep::Bad { err },
    decreases rem(s, pos), 3int,
{
    lemma_parse_string_bounds(s, pos);
    match spec_parse_string(s, pos) {
        StrStep::Bad { .. } => {},
        StrStep::Good { bytes: key, next: kn } => {
            lemma_parse_value_bounds(s, kn);
            match spec_parse_value(s, kn) {
                ValStep::Bad { .. } => {},
                ValStep::Good { v, next: n1 } => {
                    let acc2 = acc.insert(key, v);
                    assert(n1 < s.len());
                    match s[n1] {
                        ByteRead::Failed => {},
                        ByteRead::Got(b) => {
                            if j < kn {
                                lemma_parse_string_truncated(s, pos, j);
                            } else if j == kn {
                                lemma_parse_string_stable(s, pos, j);
                            } else if j < n1 {
                                lemma_parse_string_stable(s, pos, j);
                                lemma_parse_value_truncated(s, kn, j);
                            } else if b == MARK_END {
                                assert(j == n1);
                                lemma_parse_string_stable(s, pos, j);
                                lemma_parse_value_stable(s, kn, j);
                            } else {
                                assert(n1 > pos);
                                lemma_dict_items_bounds(s, n1, acc2);
                                lemma_parse_string_stable(s, pos, j);
                                lemma_parse_value_stable(s, kn, j);
                                if j == n1 {
                                } else {
                                    assert(s.take(j)[n1] == s[n1]);
                                    lemma_dict_items_truncated(s, n1, acc2, j);
                                }
                            }
                        },
                    }
                },
            }
        },
    }
}

/// Decoding the canonical encoding `i<n>e` of a non-negative 64-bit
/// integer yields exactly that integer and consumes the whole
/// encoding.
pub proof fn lemma_decode_nonneg_int(n: int)
    requires
        0 <= n <= i64::MAX as int,
    ensures
        ({
            let enc = all_got(seq![MARK_INT] + dec_digits(n as nat) + seq![MARK_END]);
            spec_parse_value(enc, 0) == ValStep::Good { v: SpecValue::Int(n), next: enc.len() as int }
        }),
{
    let ds = dec_digits(n as nat);
    let bytes = seq![MARK_INT] + ds + seq![MARK_END];
    let enc = all_got(bytes);
    lemma_dec_digits_are_digits(n as nat);
    lemma_dec_digits_value(n as nat);
    assert(pow10(19) == 10000000000000000000) by {
        reveal_with_fuel(pow10, 20);
    }
    lemma_dec_digits_len(n as nat, 19);
    assert(enc.len() == ds.len() + 2);
    assert(enc[0] == ByteRead::Got(MARK_INT));
    assert(forall|j: int| 0 <= j < ds.len() ==> bytes[1 + j] == ds[j]);
    assert(forall|j: int| 0 <= j < ds.len() ==> enc[1 + (j - 0)] == ByteRead::Got(ds[j]));
    assert(enc[1 + ds.len() as int] == ByteRead::Got(MARK_END));
    assert(ds.take(0) =~= Seq::<u8>::empty());
    lemma_int_digits_run(enc, 1, ds, 0, false);
    assert(enc[1] == ByteRead::Got(ds[0]));
    assert(spec_parse_int(enc, 0) == IntStep::Good { n: n as i64, next: enc.len() as int });
}

/// Decoding the canonical encoding `i-<n>e` of a positive magnitude
/// within the 64-bit range yields exactly the negated integer and
/// consumes the whole encoding.
pub proof fn lemma_decode_negative_int(n: int)
    requires
        0 < n <= i64::MAX as int + 1,
    ensures
        ({
            let enc = all_got(seq![MARK_INT, MINUS] + dec_digits(n as nat) + seq![MARK_END]);
            spec_parse_value(enc, 0) == ValStep::Good {
                v: SpecValue::Int(-n),
                next: enc.len() as int,
            }
        }),
{
    let ds = dec_digits(n as nat);
    let bytes = seq![MARK_INT, MINUS] + ds + seq![MARK_END];
    let enc = all_got(bytes);
    lemma_dec_digits_are_digits(n as nat);
    lemma_dec_digits_value(n as nat);
    assert(pow10(19) == 10000000000000000000) by {
        reveal_with_fuel(pow10, 20);
    }
    lemma_dec_digits_len(n as nat, 19);
    assert(enc.len() == ds.len() + 3);
    assert(enc[0] == ByteRead::Got(MARK_INT));
    assert(enc[1] == ByteRead::Got(MINUS));
    assert(forall|j: int| 0 <= j < ds.len() ==> bytes[2 + j] == ds[j]);
    assert(forall|j: int| 0 <= j < ds.len() ==> enc[2 + (j - 0)] == ByteRead::Got(ds[j]));
    assert(enc[2 + ds.len() as int] == ByteRead::Got(MARK_END));
    assert(ds.take(0) =~= Seq::<u8>::empty());
    lemma_int_digits_run(enc, 2, ds, 0, true);
    assert(enc[2] == ByteRead::Got(ds[0]));
    assert(spec_parse_int(enc, 0) == IntStep::Good { n: (-n) as i64, next: enc.len() as int });
}

/// Decoding `<L>:` followed by any `L` raw bytes yields exactly those
/// bytes, whatever they hold, and consumes the whole encoding.
pub proof fn lemma_decode_byte_string(b: Seq<u8>)
    requires
        b.len() <= i64::MAX as int,
    ensures
        ({
            let enc = all_got(dec_digits(b.len() as nat) + seq![COLON] + b);
            spec_parse_value(enc, 0) == ValStep::Good {
                v: SpecValue::Bytes(b),
                next: enc.len() as int,
            }
        }),
{
    let ds = dec_digits(b.len() as nat);
    let bytes = ds + seq![COLON] + b;
    let enc = all_got(bytes);
    lemma_dec_digits_are_digits(b.len() as nat);
    lemma_dec_digits_value(b.len() as nat);
    assert(enc.len() == ds.len() + 1 + b.len());
    assert(forall|j: int| 0 <= j < ds.len() ==> bytes[j] == ds[j]);
    assert(forall|j: int| 0 <= j < ds.len() ==> enc[0 + (j - 0)] == ByteRead::Got(ds[j]));
    assert(enc[0 + ds.len() as int] == ByteRead::Got(COLON));
    assert(ds.take(0) =~= Seq::<u8>::empty());
    lemma_len_prefix_run(enc, 0, ds, 0);
    let p = ds.len() + 1;
    assert(forall|j: int| 0 <= j < b.len() ==> bytes[p + j] == b[j]);
    assert(forall|j: int| 0 <= j < b.len() ==> enc[p + (j - 0)] == ByteRead::Got(b[j]));
    assert(b.take(0) =~= Seq::<u8>::empty());
    lemma_read_exact_run(enc, p as int, b, 0);
    assert(spec_parse_string(enc, 0) == StrStep::Good { bytes: b, next: enc.len() as int });
    assert(enc[0] == ByteRead::Got(ds[0]));
    assert(is_ascii_digit(ds[0]));
}

/// Invoking the dispatcher with no remaining input is the end-of-stream
/// answer, not an error, and leaves the position unchanged.
pub proof fn lemma_no_input_is_end_of_stream(s: Seq<ByteRead>, pos: int)
    requires
        s.len() <= pos,
    ensures
        spec_parse_value(s, pos) == (ValStep::Good { v: SpecValue::Eof, next: pos }),
{
}

} // verus!
