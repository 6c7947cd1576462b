//! The byte source adapter: a cursor over a sequence of byte-read
//! results, each either a byte or a failed read, with one-byte lookahead.

use vstd::prelude::*;

verus! {

/// One read from the underlying byte source: either a byte or a read
/// failure reported by the source.
#[derive(Clone, Copy, Debug, PartialEq, Eq, Structural)]
pub enum ByteRead {
    Got(u8),
    Failed,
}

/// The sequence of read results standing for a sequence of plain bytes
/// in which no read fails.
pub open spec fn all_got(bytes: Seq<u8>) -> Seq<ByteRead> {
    Seq::new(bytes.len(), |i: int| ByteRead::Got(bytes[i]))
}

/// A cursor over a sequence of byte-read results.  `peek` looks at the
/// next result without consuming it; `next` consumes it.  Past the end
/// of the sequence both report that no more input is available.
pub struct ByteCursor {
    items: Vec<ByteRead>,
    pos: usize,
}

impl ByteCursor {
    /// The position never runs past the end of the stream.
    #[verifier::type_invariant]
    pub open spec fn wf(&self) -> bool {
        0 <= self.pos() <= self.stream().len()
    }

    /// The whole underlying sequence of read results.
    pub closed spec fn stream(&self) -> Seq<ByteRead> {
        self.items@
    }

    /// The index of the next unconsumed read result.
    pub closed spec fn pos(&self) -> int {
        self.pos as int
    }

    /// A cursor positioned at the start of the given read results.
    pub fn from_reads(items: Vec<ByteRead>) -> (c: ByteCursor)
        ensures
            c.stream() == items@,
            c.pos() == 0,
    {
        ByteCursor { items, pos: 0 }
    }

    /// A cursor positioned at the start of the given bytes, none of
    /// which is a failed read.
    pub fn from_bytes(bytes: Vec<u8>) -> (c: ByteCursor)
        ensures
            c.stream() == all_got(bytes@),
            c.pos() == 0,
    {
        let mut items: Vec<ByteRead> = Vec::new();
        let mut i: usize = 0;
        while i < bytes.len()
            invariant
                i <= bytes@.len(),
                items@ == all_got(bytes@).take(i as int),
            decreases bytes@.len() - i,
        {
            items.push(ByteRead::Got(bytes[i]));
            proof {
                assert(items@ =~= all_got(bytes@).take(i as int + 1));
            }
            i = i + 1;
        }
        proof {
            assert(all_got(bytes@).take(bytes@.len() as int) =~= all_got(bytes@));
        }
        ByteCursor { items, pos: 0 }
    }

    /// Look at the next read result without consuming it.
    pub fn peek(&self) -> (r: Option<ByteRead>)
        ensures
            r == (if self.pos() < self.stream().len() {
                Some(self.stream()[self.pos()])
            } else {
                None::<ByteRead>
            }),
    {
        if self.pos < self.items.len() {
            Some(self.items[self.pos])
        } else {
            None
        }
    }

    /// Consume and return the next read result.  Past the end of the
    /// sequence, returns `None` and leaves the cursor unchanged.
    pub fn next(&mut self) -> (r: Option<ByteRead>)
        ensures
            final(self).stream() == old(self).stream(),
            if old(self).pos() < old(self).stream().len() {
                r == Some(old(self).stream()[old(self).pos()]) && final(self).pos() == old(
                    self,
                ).pos() + 1
            } else {
                r == None::<ByteRead> && final(self).pos() == old(self).pos()
            },
    {
        if self.pos < self.items.len() {
            let r = self.items[self.pos];
            self.pos = self.pos + 1;
            Some(r)
        } else {
            None
        }
    }
}

} // verus!
