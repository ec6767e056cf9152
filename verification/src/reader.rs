//! A cursor over a byte source, with a lookahead of two bytes.
use std::collections::VecDeque;

use vstd::prelude::*;

use crate::source::ByteSource;

verus! {

broadcast use vstd::std_specs::vecdeque::group_vec_dequeue_axioms;

/// How many bytes the reader asks of its source at a time.
pub const BLOCK_SIZE: usize = 8192;

/// The byte at the front of `s`, if there is one.
pub open spec fn first(s: Seq<u8>) -> Option<u8> {
    if s.len() > 0 {
        Some(s[0])
    } else {
        None
    }
}

/// The byte behind the front of `s`, if there is one.
pub open spec fn second(s: Seq<u8>) -> Option<u8> {
    if s.len() > 1 {
        Some(s[1])
    } else {
        None
    }
}

/// What is left of `s` when its front byte, if any, is taken away.
pub open spec fn advance(s: Seq<u8>) -> Seq<u8> {
    if s.len() > 0 {
        s.skip(1)
    } else {
        s
    }
}

/// Whether a lookup has run into the end of the input.
pub fn is_eof(b: Option<u8>) -> (r: bool)
    ensures
        r == (b is None),
{
    b.is_none()
}

/// A cursor over the bytes of a source.
///
/// The reader fetches the source one block at a time and keeps what it has
/// fetched and not yet handed out. Its model is the input that is still ahead
/// of the cursor.
pub struct Reader<S: ByteSource> {
    /// The bytes fetched from the source that are still ahead of the cursor.
    buffer: VecDeque<u8>,
    source: S,
}

impl<S: ByteSource> Reader<S> {
    /// The input that is still ahead of the cursor.
    pub closed spec fn rest(&self) -> Seq<u8> {
        self.buffer@ + self.source.remaining()
    }

    /// A reader at the start of `source`.
    pub fn new(source: S) -> (reader: Self)
        ensures
            reader.rest() == source.remaining(),
    {
        let reader = Reader { buffer: VecDeque::new(), source };
        assert(reader.buffer@ + source.remaining() =~= source.remaining());
        reader
    }

    /// Fetches from the source, block by block, until `need` bytes are
    /// buffered or the source is at its end.
    fn fill(&mut self, need: usize)
        ensures
            final(self).rest() == old(self).rest(),
            final(self).buffer@.len() >= need || final(self).source.remaining().len() == 0,
    {
        while self.buffer.len() < need
            invariant
                self.rest() == old(self).rest(),
            ensures
                self.rest() == old(self).rest(),
                self.buffer@.len() >= need || self.source.remaining().len() == 0,
            decreases
                    (if self.buffer@.len() < need {
                        need - self.buffer@.len()
                    } else {
                        0
                    }),
        {
            let ghost before = self.buffer@;
            let block = self.source.read_block(BLOCK_SIZE);
            if block.len() == 0 {
                break ;
            }
            let ghost behind = self.source.remaining();
            let mut i: usize = 0;
            while i < block.len()
                invariant
                    i <= block.len(),
                    self.buffer@ == before + block@.take(i as int),
                    self.source.remaining() == behind,
                decreases block.len() - i,
            {
                self.buffer.push_back(block[i]);
                i += 1;
                assert(before + block@.take(i as int) =~= (before + block@.take(i - 1)).push(
                    block@[i - 1],
                ));
            }
            proof {
                assert(block@.take(block@.len() as int) =~= block@);
                assert((before + block@) + behind =~= before + (block@ + behind));
            }
        }
    }

    /// The byte at the cursor; the cursor stays.
    pub fn peek(&mut self) -> (byte: Option<u8>)
        ensures
            byte == first(old(self).rest()),
            final(self).rest() == old(self).rest(),
    {
        self.fill(1);
        if self.buffer.len() > 0 {
            Some(self.buffer[0])
        } else {
            None
        }
    }

    /// The byte one past the cursor; the cursor stays.
    pub fn peek_next(&mut self) -> (byte: Option<u8>)
        ensures
            byte == second(old(self).rest()),
            final(self).rest() == old(self).rest(),
    {
        self.fill(2);
        if self.buffer.len() > 1 {
            Some(self.buffer[1])
        } else {
            None
        }
    }

    /// The byte at the cursor; the cursor moves past it.
    pub fn get(&mut self) -> (byte: Option<u8>)
        ensures
            byte == first(old(self).rest()),
            final(self).rest() == advance(old(self).rest()),
    {
        self.fill(1);
        let ghost before = self.buffer@;
        let byte = self.buffer.pop_front();
        proof {
            if before.len() > 0 {
                assert((before + self.source.remaining()).skip(1) =~= before.subrange(
                    1,
                    before.len() as int,
                ) + self.source.remaining());
            }
        }
        byte
    }

    /// Moves the cursor past the byte it is at. At the end of the input the
    /// cursor stays.
    pub fn increment_cursor(&mut self)
        ensures
            final(self).rest() == advance(old(self).rest()),
    {
        let _ = self.get();
    }
}

} // verus!
