//! Where the input bytes come from.
use vstd::prelude::*;

verus! {

/// A stream of bytes that is read front to back, one block at a time.
///
/// The model of a source is the sequence of bytes it has not delivered yet.
/// The sources of this module hold their bytes in memory; a dump that its
/// caller reads from elsewhere, block by block, is split with
/// [`crate::feed::Feed`].
pub trait ByteSource {
    /// The bytes that this source has yet to deliver.
    spec fn remaining(&self) -> Seq<u8>;

    /// Delivers the next bytes of the source, at most `limit` of them.
    ///
    /// With a positive `limit`, an empty block means that the source is at its
    /// end.
    fn read_block(&mut self, limit: usize) -> (block: Vec<u8>)
        ensures
            block@.len() <= limit,
            block@ + final(self).remaining() == old(self).remaining(),
            limit > 0 && block@.len() == 0 ==> old(self).remaining().len() == 0,
    ;
}

/// A source that delivers the bytes of a vector held in memory.
pub struct MemorySource {
    data: Vec<u8>,
    pos: usize,
}

impl MemorySource {
    #[verifier::type_invariant]
    spec fn inv(&self) -> bool {
        self.pos <= self.data.len()
    }

    /// A source that will deliver `data` from its first byte on.
    pub fn new(data: Vec<u8>) -> (source: Self)
        ensures
            source.remaining() == data@,
    {
        MemorySource { data, pos: 0 }
    }
}

impl ByteSource for MemorySource {
    closed spec fn remaining(&self) -> Seq<u8> {
        self.data@.skip(self.pos as int)
    }

    fn read_block(&mut self, limit: usize) -> (block: Vec<u8>)
        ensures
            block@.len() == limit || final(self).remaining().len() == 0,
    {
        proof {
            use_type_invariant(&*self);
        }
        let mut block: Vec<u8> = Vec::new();
        let mut pos: usize = self.pos;
        while block.len() < limit && pos < self.data.len()
            invariant
                self.pos <= pos <= self.data.len(),
                block@.len() <= limit,
                block@ == self.data@.subrange(self.pos as int, pos as int),
            decreases self.data.len() - pos,
        {
            block.push(self.data[pos]);
            pos += 1;
        }
        proof {
            assert(block@ + self.data@.skip(pos as int) =~= self.data@.skip(self.pos as int));
        }
        self.pos = pos;
        block
    }
}

/// A source that delivers the bytes of a slice that it borrows.
pub struct SliceSource<'a> {
    data: &'a [u8],
    pos: usize,
}

impl<'a> SliceSource<'a> {
    #[verifier::type_invariant]
    spec fn inv(&self) -> bool {
        self.pos <= self.data@.len()
    }

    /// A source that will deliver `data` from its first byte on.
    pub fn new(data: &'a [u8]) -> (source: Self)
        ensures
            source.remaining() == data@,
    {
        SliceSource { data, pos: 0 }
    }
}

impl<'a> ByteSource for SliceSource<'a> {
    closed spec fn remaining(&self) -> Seq<u8> {
        self.data@.skip(self.pos as int)
    }

    fn read_block(&mut self, limit: usize) -> (block: Vec<u8>)
        ensures
            block@.len() == limit || final(self).remaining().len() == 0,
    {
        proof {
            use_type_invariant(&*self);
        }
        let mut block: Vec<u8> = Vec::new();
        let mut pos: usize = self.pos;
        while block.len() < limit && pos < self.data.len()
            invariant
                self.pos <= pos <= self.data@.len(),
                block@.len() <= limit,
                block@ == self.data@.subrange(self.pos as int, pos as int),
            decreases self.data@.len() - pos,
        {
            block.push(self.data[pos]);
            pos += 1;
        }
        proof {
            assert(block@ + self.data@.skip(pos as int) =~= self.data@.skip(self.pos as int));
        }
        self.pos = pos;
        block
    }
}

} // verus!
