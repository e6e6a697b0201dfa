//! Walking the entries of a block.

use std::sync::Arc;
use vstd::prelude::*;
use vstd::slice::{slice_subrange, slice_to_vec};
use crate::block::{entry_end, entry_ok, key_at, value_start, Block};
use crate::key::{key_less, key_lt, lemma_key_lt_transitive};
use crate::run::{is_run, lemma_rank_is, rank, Entry};
use crate::wire::get_u16_le;

verus! {

/// Iterates on a block.
pub struct BlockIterator {
    /// The block.
    block: Arc<Block>,
    /// The current key; empty when the iterator is not valid.
    key: Vec<u8>,
    /// Where the current value lies in the block's data.
    value_range: (usize, usize),
    /// The index of the current entry.
    idx: usize,
}

impl BlockIterator {
    /// The iterator's invariant: while it is valid, its key and value range
    /// are those of the entry at its index.
    pub closed spec fn wf(&self) -> bool {
        &&& self.block.wf()
        &&& self.value_range.0 <= self.value_range.1 <= self.block.data@.len()
        &&& self.key@.len() == 0 ==> self.value_range.0 == self.value_range.1
        &&& self.key@.len() > 0 ==> {
            &&& self.idx < self.block.offsets@.len()
            &&& self.key@ == key_at(self.block.data@, self.block.offsets@[self.idx as int] as int)
            &&& self.value_range.0 == value_start(
                self.block.data@,
                self.block.offsets@[self.idx as int] as int,
            )
            &&& self.value_range.1 == entry_end(
                self.block.data@,
                self.block.offsets@[self.idx as int] as int,
            )
        }
    }

    /// The entries of the block that the iterator walks.
    pub closed spec fn block_entries(&self) -> Seq<Entry> {
        self.block.entries()
    }

    /// The index of the current entry, or the number of entries when the
    /// iterator is not valid.
    pub closed spec fn position(&self) -> int {
        if self.key@.len() > 0 {
            self.idx as int
        } else {
            self.block.offsets@.len() as int
        }
    }

    /// The entries from the current one to the end of the block.
    pub open spec fn remaining(&self) -> Seq<Entry> {
        self.block_entries().skip(self.position())
    }

    /// The position lies within the block, whose entries are a run.
    pub proof fn lemma_position(&self)
        requires
            self.wf(),
        ensures
            0 <= self.position() <= self.block_entries().len(),
            self.remaining().len() == self.block_entries().len() - self.position(),
            is_run(self.block_entries()),
            is_run(self.remaining()),
    {
        crate::run::lemma_run_subrange(
            self.block_entries(),
            self.position(),
            self.block_entries().len() as int,
        );
    }

    /// Creates an iterator on `block` that is not valid yet.
    pub(crate) fn new(block: Arc<Block>) -> (r: Self)
        requires
            block.wf(),
        ensures
            r.wf(),
            r.block_entries() == block.entries(),
            r.remaining().len() == 0,
    {
        Self { block, key: Vec::new(), value_range: (0, 0), idx: 0 }
    }

    /// Creates a block iterator and seeks to the first entry.
    pub fn create_and_seek_to_first(block: Arc<Block>) -> (r: Self)
        requires
            block.wf(),
        ensures
            r.wf(),
            r.block_entries() == block.entries(),
            r.remaining() == block.entries(),
    {
        let mut iter = Self::new(block);
        iter.seek_to_first();
        iter
    }

    /// Creates a block iterator and seeks to the first key that is `>= key`.
    pub fn create_and_seek_to_key(block: Arc<Block>, key: &[u8]) -> (r: Self)
        requires
            block.wf(),
        ensures
            r.wf(),
            r.block_entries() == block.entries(),
            r.remaining() == block.entries().skip(rank(block.entries(), key@)),
    {
        let mut iter = Self::new(block);
        iter.seek_to_key(key);
        iter
    }

    /// The key of the current entry; empty when the iterator is not valid.
    pub fn key(&self) -> (k: &[u8])
        requires
            self.wf(),
        ensures
            self.remaining().len() > 0 ==> k@ == self.remaining()[0].0,
            self.remaining().len() == 0 ==> k@.len() == 0,
    {
        self.key.as_slice()
    }

    /// The value of the current entry; empty when the iterator is not valid.
    pub fn value(&self) -> (v: &[u8])
        requires
            self.wf(),
        ensures
            self.remaining().len() > 0 ==> v@ == self.remaining()[0].1,
            self.remaining().len() == 0 ==> v@.len() == 0,
    {
        slice_subrange(self.block.data.as_slice(), self.value_range.0, self.value_range.1)
    }

    /// Whether the iterator stands on an entry.
    pub fn is_valid(&self) -> (b: bool)
        requires
            self.wf(),
        ensures
            b == (self.remaining().len() > 0),
    {
        self.key.len() > 0
    }

    /// The key of entry `idx`, as a slice of the block's data.
    fn key_slice(&self, idx: usize) -> (k: &[u8])
        requires
            self.block.wf(),
            idx < self.block.offsets@.len(),
        ensures
            k@ == self.block.entries()[idx as int].0,
            k@.len() > 0,
    {
        assert(entry_ok(self.block.data@, self.block.offsets@, idx as int));
        let data = self.block.data.as_slice();
        let offset = self.block.offsets[idx] as usize;
        let key_len = get_u16_le(slice_subrange(data, offset, offset + 2)) as usize;
        slice_subrange(data, offset + 2, offset + 2 + key_len)
    }

    /// A copy of the key of entry `idx`.
    fn extract_key(&self, idx: usize) -> (k: Vec<u8>)
        requires
            self.block.wf(),
            idx < self.block.offsets@.len(),
        ensures
            k@ == key_at(self.block.data@, self.block.offsets@[idx as int] as int),
            k@.len() > 0,
    {
        slice_to_vec(self.key_slice(idx))
    }

    /// Where the value of entry `idx` starts and ends in the block's data.
    fn extract_value_range(&self, idx: usize) -> (r: (usize, usize))
        requires
            self.block.wf(),
            idx < self.block.offsets@.len(),
        ensures
            r.0 == value_start(self.block.data@, self.block.offsets@[idx as int] as int),
            r.1 == entry_end(self.block.data@, self.block.offsets@[idx as int] as int),
            r.0 <= r.1 <= self.block.data@.len(),
    {
        assert(entry_ok(self.block.data@, self.block.offsets@, idx as int));
        let data = self.block.data.as_slice();
        let offset = self.block.offsets[idx] as usize;
        let key_len = get_u16_le(slice_subrange(data, offset, offset + 2)) as usize;
        let at = offset + 2 + key_len;
        let value_len = get_u16_le(slice_subrange(data, at, at + 2)) as usize;
        (at + 2, at + 2 + value_len)
    }

    /// Moves to entry `idx`, or past the end when there is no such entry.
    fn seek_to_index(&mut self, idx: usize)
        requires
            old(self).block.wf(),
            idx <= old(self).block.offsets@.len(),
        ensures
            final(self).wf(),
            final(self).block == old(self).block,
            final(self).position() == idx,
    {
        if idx >= self.block.offsets.len() {
            self.key = Vec::new();
            self.value_range = (0, 0);
            return;
        }
        self.key = self.extract_key(idx);
        self.value_range = self.extract_value_range(idx);
        self.idx = idx;
    }

    /// Seeks to the first entry of the block.
    pub fn seek_to_first(&mut self)
        requires
            old(self).wf(),
        ensures
            final(self).wf(),
            final(self).block_entries() == old(self).block_entries(),
            final(self).remaining() == final(self).block_entries(),
    {
        proof {
            use_block_wf(&self.block);
        }
        self.seek_to_index(0);
    }

    /// Moves to the next entry of the block. On an iterator that is not valid
    /// this does nothing.
    pub fn next(&mut self)
        requires
            old(self).wf(),
        ensures
            final(self).wf(),
            final(self).block_entries() == old(self).block_entries(),
            old(self).remaining().len() > 0 ==> final(self).remaining() == old(
                self,
            ).remaining().skip(1),
            old(self).remaining().len() == 0 ==> final(self).remaining() == old(self).remaining(),
    {
        if !self.is_valid() {
            return;
        }
        let ghost before = self.remaining();
        let next = self.idx + 1;
        self.seek_to_index(next);
        assert(self.remaining() =~= before.skip(1));
    }

    /// Seeks to the first entry whose key is `>= key`, by binary search.
    pub fn seek_to_key(&mut self, key: &[u8])
        requires
            old(self).wf(),
        ensures
            final(self).wf(),
            final(self).block_entries() == old(self).block_entries(),
            final(self).remaining() == final(self).block_entries().skip(
                rank(final(self).block_entries(), key@),
            ),
            final(self).position() == rank(final(self).block_entries(), key@),
    {
        let ghost es = self.block.entries();
        let mut lo: usize = 0;
        let mut hi: usize = self.block.offsets.len();
        while lo < hi
            invariant
                self.block.wf(),
                es == self.block.entries(),
                lo <= hi <= es.len(),
                forall|j: int| 0 <= j < lo ==> key_lt((#[trigger] es[j]).0, key@),
                forall|j: int| hi <= j < es.len() ==> !key_lt((#[trigger] es[j]).0, key@),
            decreases hi - lo,
        {
            let mid = lo + (hi - lo) / 2;
            let mid_key = self.key_slice(mid);
            if key_less(mid_key, key) {
                assert forall|j: int| 0 <= j < mid + 1 implies key_lt((#[trigger] es[j]).0, key@) by {
                    if j < mid {
                        assert(key_lt(es[j].0, es[mid as int].0));
                        lemma_key_lt_transitive(es[j].0, es[mid as int].0, key@);
                    }
                }
                lo = mid + 1;
            } else {
                assert forall|j: int| mid <= j < es.len() implies !key_lt(
                    (#[trigger] es[j]).0,
                    key@,
                ) by {
                    if j > mid {
                        assert(key_lt(es[mid as int].0, es[j].0));
                        if key_lt(es[j].0, key@) {
                            lemma_key_lt_transitive(es[mid as int].0, es[j].0, key@);
                        }
                    }
                }
                hi = mid;
            }
        }
        proof {
            lemma_rank_is(es, key@, lo as int);
        }
        self.seek_to_index(lo);
    }
}

/// What a well-formed block gives its readers.
proof fn use_block_wf(block: &Block)
    requires
        block.wf(),
    ensures
        is_run(block.entries()),
        block.entries().len() == block.offsets@.len(),
{
}

} // verus!
