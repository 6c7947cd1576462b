//! Decoded values, their mathematical model, and the decode error
//! taxonomy.
//!
//! A dictionary is stored as a vector of key/value entries with pairwise
//! distinct keys; its model is a `Map` from key bytes to model values, in
//! which a later insertion of an equal key overwrites the earlier value.

use vstd::prelude::*;

verus! {

/// Every way a decode can fail.  Each parsing function's contract states
/// exactly which inputs produce which of these.
#[derive(Clone, Copy, Debug, PartialEq, Eq, Structural)]
pub enum DecodeError {
    /// The underlying byte source reported a failed read.
    SourceRead,
    /// The dispatcher saw a byte that starts no grammar production.
    InvalidLeadByte(u8),
    /// A byte string's length prefix held a byte that is neither a
    /// decimal digit nor the terminating colon.
    InvalidLengthPrefix(u8),
    /// Input ended inside a byte string's length prefix.
    UnterminatedLengthPrefix,
    /// Input ended inside a byte string's body.
    UnterminatedString,
    /// An integer held a byte that is neither a decimal digit nor the
    /// terminating `e`.
    InvalidDigit(u8),
    /// Input ended inside an integer.
    UnterminatedInteger,
    /// An integer ran past the cap of nineteen decimal digits.
    IntegerTooLarge,
    /// An integer's magnitude does not fit in a signed 64-bit value.
    IntegerOverflow,
    /// Input ended inside a list before its terminating `e`.
    UnterminatedList,
    /// Input ended inside a dictionary before its terminating `e`.
    UnterminatedDictionary,
}

/// The mathematical model of a decoded value.
pub enum SpecValue {
    Int(int),
    Bytes(Seq<u8>),
    List(Seq<SpecValue>),
    Dict(Map<Seq<u8>, SpecValue>),
    /// The dispatcher's answer when invoked with no remaining input.
    Eof,
}

/// A decoded bencode value: an integer, a byte string, a list, a
/// dictionary, or the end-of-input sentinel returned by the dispatcher
/// when no input remains.
#[derive(Debug, PartialEq)]
pub enum BencodeValue {
    Integer(i64),
    String(Vec<u8>),
    List(Vec<BencodeValue>),
    Dictionary(BencodeDict),
    EndOfFile,
}

/// A dictionary of decoded values, keyed by byte strings.  Keys are
/// pairwise distinct; inserting an existing key overwrites its value.
#[derive(Debug, PartialEq)]
pub struct BencodeDict {
    entries: Vec<(Vec<u8>, BencodeValue)>,
}

/// The model of a decoded value.
pub open spec fn deep_view(v: BencodeValue) -> SpecValue
    decreases v,
{
    match v {
        BencodeValue::Integer(i) => SpecValue::Int(i as int),
        BencodeValue::String(b) => SpecValue::Bytes(b@),
        BencodeValue::List(xs) => SpecValue::List(seq_deep_view(xs@)),
        BencodeValue::Dictionary(d) => SpecValue::Dict(d.map_view()),
        BencodeValue::EndOfFile => SpecValue::Eof,
    }
}

/// The models of a sequence of decoded values, in order.
pub open spec fn seq_deep_view(xs: Seq<BencodeValue>) -> Seq<SpecValue>
    decreases xs,
{
    if xs.len() == 0 {
        Seq::<SpecValue>::empty()
    } else {
        seq_deep_view(xs.drop_last()).push(deep_view(xs.last()))
    }
}

/// Appending a value to a sequence appends its model to the sequence's
/// model.
pub proof fn lemma_seq_deep_view_push(xs: Seq<BencodeValue>, x: BencodeValue)
    ensures
        seq_deep_view(xs.push(x)) == seq_deep_view(xs).push(deep_view(x)),
{
    assert(xs.push(x).drop_last() =~= xs);
}

/// The map built from dictionary entries in order: an entry for a key
/// already present overwrites the earlier value (last write wins).
pub open spec fn entries_view(es: Seq<(Vec<u8>, BencodeValue)>) -> Map<Seq<u8>, SpecValue>
    decreases es,
{
    if es.len() == 0 {
        Map::<Seq<u8>, SpecValue>::empty()
    } else {
        entries_view(es.drop_last()).insert(es.last().0@, deep_view(es.last().1))
    }
}

/// The keys of all entries are pairwise distinct.
pub open spec fn keys_distinct(es: Seq<(Vec<u8>, BencodeValue)>) -> bool {
    forall|i: int, j: int| 0 <= i < j < es.len() ==> es[i].0@ != es[j].0@
}

/// No entry carries the key `k`.
pub open spec fn key_absent(es: Seq<(Vec<u8>, BencodeValue)>, k: Seq<u8>) -> bool {
    forall|i: int| 0 <= i < es.len() ==> es[i].0@ != k
}

proof fn lemma_entries_view_absent(es: Seq<(Vec<u8>, BencodeValue)>, k: Seq<u8>)
    requires
        key_absent(es, k),
    ensures
        !entries_view(es).contains_key(k),
    decreases es,
{
    if es.len() > 0 {
        assert(es.drop_last().len() == es.len() - 1);
        assert(forall|i: int| 0 <= i < es.drop_last().len() ==> es.drop_last()[i] == es[i]);
        lemma_entries_view_absent(es.drop_last(), k);
        assert(es[es.len() - 1].0@ != k);
    }
}

proof fn lemma_entries_view_get(es: Seq<(Vec<u8>, BencodeValue)>, j: int)
    requires
        keys_distinct(es),
        0 <= j < es.len(),
    ensures
        entries_view(es).contains_key(es[j].0@),
        entries_view(es)[es[j].0@] == deep_view(es[j].1),
    decreases es,
{
    let prefix = es.drop_last();
    assert(forall|i: int| 0 <= i < prefix.len() ==> prefix[i] == es[i]);
    if j == es.len() - 1 {
    } else {
        lemma_entries_view_get(prefix, j);
        assert(es[j].0@ != es[es.len() - 1].0@);
    }
}

proof fn lemma_entries_view_remove(es: Seq<(Vec<u8>, BencodeValue)>, j: int)
    requires
        keys_distinct(es),
        0 <= j < es.len(),
    ensures
        entries_view(es.remove(j)) == entries_view(es).remove(es[j].0@),
    decreases es,
{
    let k = es[j].0@;
    let prefix = es.drop_last();
    assert(forall|i: int| 0 <= i < prefix.len() ==> prefix[i] == es[i]);
    if j == es.len() - 1 {
        assert(es.remove(j) =~= prefix);
        assert(key_absent(prefix, k));
        lemma_entries_view_absent(prefix, k);
        assert(entries_view(prefix) =~= entries_view(prefix).insert(k, deep_view(es[j].1)).remove(
            k,
        ));
    } else {
        lemma_entries_view_remove(prefix, j);
        let last = es[es.len() - 1];
        assert(es.remove(j) =~= prefix.remove(j).push(last));
        assert(es.remove(j).drop_last() =~= prefix.remove(j));
        assert(es.remove(j).last() == last);
        assert(k != last.0@);
        assert(entries_view(prefix.remove(j)).insert(last.0@, deep_view(last.1)) =~= entries_view(
            prefix,
        ).insert(last.0@, deep_view(last.1)).remove(k));
    }
}

/// Whether two byte vectors hold the same bytes.
pub fn bytes_eq(a: &Vec<u8>, b: &Vec<u8>) -> (r: bool)
    ensures
        r == (a@ == b@),
{
    if a.len() != b.len() {
        return false;
    }
    let mut i: usize = 0;
    while i < a.len()
        invariant
            i <= a@.len(),
            a@.len() == b@.len(),
            forall|k: int| 0 <= k < i ==> a@[k] == b@[k],
        decreases a@.len() - i,
    {
        if a[i] != b[i] {
            return false;
        }
        i = i + 1;
    }
    proof {
        assert(a@ =~= b@);
    }
    true
}

impl BencodeDict {
    #[verifier::type_invariant]
    spec fn inv(&self) -> bool {
        keys_distinct(self.entries@)
    }

    /// The map this dictionary holds: each key maps to the value most
    /// recently inserted at it.
    pub closed spec fn map_view(&self) -> Map<Seq<u8>, SpecValue>
        decreases self,
    {
        entries_view(self.entries@)
    }

    /// An empty dictionary.
    pub fn new() -> (d: BencodeDict)
        ensures
            d.map_view() == Map::<Seq<u8>, SpecValue>::empty(),
    {
        BencodeDict { entries: Vec::new() }
    }

    /// The index of the entry holding `key`, if any.
    fn find(&self, key: &Vec<u8>) -> (r: Option<usize>)
        ensures
            match r {
                Some(j) => 0 <= j < self.entries@.len() && self.entries@[j as int].0@ == key@,
                None => key_absent(self.entries@, key@),
            },
    {
        let mut i: usize = 0;
        while i < self.entries.len()
            invariant
                i <= self.entries@.len(),
                forall|k: int| 0 <= k < i ==> self.entries@[k].0@ != key@,
            decreases self.entries@.len() - i,
        {
            if bytes_eq(&self.entries[i].0, key) {
                return Some(i);
            }
            i = i + 1;
        }
        None
    }

    /// Insert a key and value; an equal key already present has its
    /// value overwritten (last write wins).
    pub fn insert(self, key: Vec<u8>, value: BencodeValue) -> (d: BencodeDict)
        ensures
            d.map_view() == self.map_view().insert(key@, deep_view(value)),
    {
        proof {
            use_type_invariant(&self);
        }
        let found = self.find(&key);
        let BencodeDict { mut entries } = self;
        let ghost es0 = entries@;
        match found {
            Some(j) => {
                let _ = entries.remove(j);
                proof {
                    lemma_entries_view_remove(es0, j as int);
                    assert(keys_distinct(entries@)) by {
                        assert(forall|i: int|
                            0 <= i < entries@.len() ==> entries@[i] == (if i < j as int {
                                es0[i]
                            } else {
                                es0[i + 1]
                            }));
                    }
                    assert(key_absent(entries@, key@)) by {
                        assert(forall|i: int|
                            0 <= i < entries@.len() ==> entries@[i] == (if i < j as int {
                                es0[i]
                            } else {
                                es0[i + 1]
                            }));
                    }
                }
            },
            None => {},
        }
        let ghost es1 = entries@;
        entries.push((key, value));
        proof {
            assert(entries@.drop_last() =~= es1);
            assert(keys_distinct(entries@)) by {
                assert(forall|i: int| 0 <= i < es1.len() ==> entries@[i] == es1[i]);
            }
            assert(entries_view(entries@) =~= entries_view(es0).insert(key@, deep_view(value)));
        }
        BencodeDict { entries }
    }

    /// Remove a key, handing back the value stored at it, if any.
    pub fn remove(self, key: &Vec<u8>) -> (r: (BencodeDict, Option<BencodeValue>))
        ensures
            r.0.map_view() == self.map_view().remove(key@),
            match r.1 {
                Some(v) => self.map_view().contains_key(key@) && deep_view(v)
                    == self.map_view()[key@],
                None => !self.map_view().contains_key(key@),
            },
    {
        proof {
            use_type_invariant(&self);
        }
        let found = self.find(key);
        let BencodeDict { mut entries } = self;
        let ghost es0 = entries@;
        match found {
            Some(j) => {
                let entry = entries.remove(j);
                proof {
                    lemma_entries_view_remove(es0, j as int);
                    lemma_entries_view_get(es0, j as int);
                    assert(keys_distinct(entries@)) by {
                        assert(forall|i: int|
                            0 <= i < entries@.len() ==> entries@[i] == (if i < j as int {
                                es0[i]
                            } else {
                                es0[i + 1]
                            }));
                    }
                }
                (BencodeDict { entries }, Some(entry.1))
            },
            None => {
                proof {
                    lemma_entries_view_absent(es0, key@);
                    assert(entries_view(es0) =~= entries_view(es0).remove(key@));
                }
                (BencodeDict { entries }, None)
            },
        }
    }
}

} // verus!
