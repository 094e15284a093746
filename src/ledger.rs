use vstd::prelude::*;

use crate::format::MAX_I64;

verus! {

/// Where one message stands in the file, as the footer records it.
#[derive(Clone, Copy, Debug, PartialEq, Eq, Structural)]
pub struct Block {
    /// Bytes from the start of the file to the message.
    pub offset: i64,
    /// Length of the message's prefix, header and header padding.
    pub meta_data_length: i32,
    /// Length of the message's padded body.
    pub body_length: i64,
}

/// The running byte count of a file and the blocks of the messages written
/// so far, dictionaries and record batches apart, each in emission order.
pub struct BlockLedger {
    offset: u64,
    dictionary_blocks: Vec<Block>,
    record_blocks: Vec<Block>,
}

impl BlockLedger {
    /// The ledger's offsets stay representable as the format's `i64`.
    pub open spec fn wf(&self) -> bool {
        self.spec_offset() <= MAX_I64
    }

    pub closed spec fn spec_offset(&self) -> nat {
        self.offset as nat
    }

    pub closed spec fn dictionaries(&self) -> Seq<Block> {
        self.dictionary_blocks@
    }

    pub closed spec fn records(&self) -> Seq<Block> {
        self.record_blocks@
    }

    /// An empty ledger at offset zero.
    pub fn new() -> (r: Self)
        ensures
            r.wf(),
            r.spec_offset() == 0,
            r.dictionaries() == Seq::<Block>::empty(),
            r.records() == Seq::<Block>::empty(),
    {
        BlockLedger { offset: 0, dictionary_blocks: Vec::new(), record_blocks: Vec::new() }
    }

    /// The number of bytes accounted for so far.
    pub fn record_offset(&self) -> (r: u64)
        ensures
            r == self.spec_offset(),
    {
        self.offset
    }

    /// Adds `by` bytes to the running count.
    pub fn advance(&mut self, by: u64)
        requires
            old(self).spec_offset() + by <= MAX_I64,
        ensures
            final(self).spec_offset() == old(self).spec_offset() + by,
            final(self).dictionaries() == old(self).dictionaries(),
            final(self).records() == old(self).records(),
            final(self).wf(),
    {
        self.offset = self.offset + by;
    }

    /// Appends a block to the dictionary blocks.
    pub fn push_dictionary_block(&mut self, block: Block)
        ensures
            final(self).spec_offset() == old(self).spec_offset(),
            final(self).dictionaries() == old(self).dictionaries().push(block),
            final(self).records() == old(self).records(),
            final(self).wf() == old(self).wf(),
    {
        self.dictionary_blocks.push(block);
    }

    /// Appends a block to the record-batch blocks.
    pub fn push_record_block(&mut self, block: Block)
        ensures
            final(self).spec_offset() == old(self).spec_offset(),
            final(self).dictionaries() == old(self).dictionaries(),
            final(self).records() == old(self).records().push(block),
            final(self).wf() == old(self).wf(),
    {
        self.record_blocks.push(block);
    }

    /// Hands out both block sequences and leaves them empty.
    pub fn take_all(&mut self) -> (r: (Vec<Block>, Vec<Block>))
        ensures
            r.0@ == old(self).dictionaries(),
            r.1@ == old(self).records(),
            final(self).dictionaries() == Seq::<Block>::empty(),
            final(self).records() == Seq::<Block>::empty(),
            final(self).spec_offset() == old(self).spec_offset(),
            final(self).wf() == old(self).wf(),
    {
        let mut d: Vec<Block> = Vec::new();
        let mut r: Vec<Block> = Vec::new();
        std::mem::swap(&mut d, &mut self.dictionary_blocks);
        std::mem::swap(&mut r, &mut self.record_blocks);
        (d, r)
    }

    /// The dictionary blocks recorded so far.
    pub fn dictionary_blocks(&self) -> (r: &Vec<Block>)
        ensures
            r@ == self.dictionaries(),
    {
        &self.dictionary_blocks
    }

    /// The record-batch blocks recorded so far.
    pub fn record_blocks(&self) -> (r: &Vec<Block>)
        ensures
            r@ == self.records(),
    {
        &self.record_blocks
    }
}

} // verus!
