//! Building a block entry by entry.

use vstd::prelude::*;
use crate::block::{
    block_image, block_len, body_of, entries_of, entry_bytes, entry_len, entry_ok,
    lemma_block_len_push, lemma_body_push, offsets_of,
    lemma_entry_appended, lemma_entry_prefix, lemma_offsets_bytes, well_formed, Block,
};
use crate::key::key_lt;
use crate::run::{is_run, lemma_run_push, Entry};
use crate::wire::{put_slice, put_u16_le};

verus! {

/// The largest target size of a block: offsets must fit a `u16`.
pub const MAX_BLOCK_SIZE: usize = 65535;

/// Whether a block of the target size `target` that holds the entries `es`
/// takes `e` as its next entry: an empty block takes any entry, another
/// block an entry with which it does not exceed its target size.
pub open spec fn takes(es: Seq<Entry>, e: Entry, target: int) -> bool {
    es.len() == 0 || block_len(es) + entry_len(e) <= target
}

/// Builds a block.
pub struct BlockBuilder {
    /// The offset of each entry.
    offsets: Vec<u16>,
    /// The entries, serialized.
    data: Vec<u8>,
    /// The target size of the encoded block.
    block_size: usize,
    /// The first key of the block; empty while the block is.
    first_key: Vec<u8>,
}

impl BlockBuilder {
    /// The builder's invariant.
    pub closed spec fn wf(&self) -> bool {
        &&& well_formed(self.data@, self.offsets@)
        &&& self.block_size <= MAX_BLOCK_SIZE
        &&& self.offsets@.len() >= 2 ==> self.size() <= self.block_size
        &&& self.offsets@.len() == 1 ==> self.data@.len() <= 4 + 2 * 65535
        &&& self.offsets@.len() == 0 ==> self.first_key@.len() == 0
        &&& self.offsets@.len() > 0 ==> self.first_key@ == self.entries()[0].0
        &&& self.size() == block_len(self.entries())
        &&& self.data@ == body_of(self.entries())
        &&& self.offsets@ == offsets_of(self.entries())
    }

    /// The entries added so far.
    pub closed spec fn entries(&self) -> Seq<Entry> {
        entries_of(self.data@, self.offsets@)
    }

    /// The target size.
    pub closed spec fn target_size(&self) -> int {
        self.block_size as int
    }

    /// The size that the block has when encoded.
    pub closed spec fn size(&self) -> int {
        (self.data@.len() + 2 * self.offsets@.len() + 2) as int
    }

    /// The entries are a run, and the size is that of their encoding.
    pub proof fn lemma_entries(&self)
        requires
            self.wf(),
        ensures
            is_run(self.entries()),
            self.size() == block_len(self.entries()),
            self.entries().len() >= 2 ==> self.size() <= self.target_size(),
            self.target_size() <= MAX_BLOCK_SIZE,
    {
    }

    /// Creates a builder for blocks of the target size `block_size`.
    pub fn new(block_size: usize) -> (r: Self)
        requires
            block_size <= MAX_BLOCK_SIZE,
        ensures
            r.wf(),
            r.entries().len() == 0,
            r.target_size() == block_size,
    {
        Self { offsets: Vec::new(), data: Vec::with_capacity(block_size), block_size, first_key: Vec::new() }
    }

    /// The size of the block if it were encoded now.
    pub fn current_size(&self) -> (n: usize)
        requires
            self.wf(),
        ensures
            n == self.size(),
    {
        proof {
            self.lemma_size_bound();
        }
        self.data.len() + 2 * self.offsets.len() + 2
    }

    proof fn lemma_size_bound(&self)
        requires
            self.wf(),
        ensures
            self.size() <= 8 + 2 * 65535,
    {
    }

    /// Adds an entry, unless the block would then exceed its target size. A
    /// first entry is always taken, whatever its size.
    #[must_use]
    pub fn add(&mut self, key: &[u8], value: &[u8]) -> (added: bool)
        requires
            old(self).wf(),
            0 < key@.len() <= u16::MAX,
            value@.len() <= u16::MAX,
            old(self).entries().len() > 0 ==> key_lt(old(self).entries().last().0, key@),
        ensures
            final(self).wf(),
            final(self).target_size() == old(self).target_size(),
            added <==> takes(old(self).entries(), (key@, value@), old(self).target_size()),
            added ==> final(self).entries() == old(self).entries().push((key@, value@)),
            !added ==> final(self).entries() == old(self).entries(),
    {
        let size_after_add = self.current_size() + key.len() + value.len() + 6;
        if size_after_add > self.block_size && !self.is_empty() {
            return false;
        }
        let ghost data0 = self.data@;
        let ghost offsets0 = self.offsets@;
        let ghost es0 = self.entries();
        let off = self.data.len();
        assert(off <= u16::MAX);
        self.offsets.push(off as u16);
        put_u16_le(&mut self.data, key.len() as u16);
        put_slice(&mut self.data, key);
        put_u16_le(&mut self.data, value.len() as u16);
        put_slice(&mut self.data, value);
        if self.first_key.len() == 0 {
            self.first_key = vstd::slice::slice_to_vec(key);
        }
        proof {
            let more = entry_bytes(key@, value@);
            assert(self.data@ =~= data0 + more);
            lemma_entry_appended(data0, key@, value@);
            let n = offsets0.len() as int;
            assert forall|i: int| 0 <= i < n implies #[trigger] entry_ok(
                self.data@,
                self.offsets@,
                i,
            ) by {
                assert(entry_ok(data0, offsets0, i));
                lemma_entry_prefix(data0, more, offsets0[i] as int);
            }
            assert(entry_ok(self.data@, self.offsets@, n));
            let es1 = entries_of(self.data@, self.offsets@);
            assert forall|i: int| 0 <= i < n implies es1[i] == es0[i] by {
                assert(entry_ok(data0, offsets0, i));
                lemma_entry_prefix(data0, more, offsets0[i] as int);
            }
            assert(es1 =~= es0.push((key@, value@)));
            lemma_run_push(es0, (key@, value@));
            lemma_block_len_push(es0, (key@, value@));
            lemma_body_push(es0, (key@, value@));
        }
        true
    }

    /// Whether no entry was added yet.
    pub fn is_empty(&self) -> (b: bool)
        requires
            self.wf(),
        ensures
            b == (self.entries().len() == 0),
    {
        proof {
            if self.offsets@.len() > 0 {
                assert(entry_ok(self.data@, self.offsets@, 0));
                assert(crate::run::entry_storable(self.entries()[0]));
            }
        }
        self.first_key.len() == 0 || self.data.len() == 0 || self.offsets.len() == 0
    }

    /// Finishes the block.
    pub fn build(self) -> (b: Block)
        requires
            self.wf(),
        ensures
            b.wf(),
            b.entries() == self.entries(),
            b.encoded() == block_image(self.entries()),
            b.encoded().len() == block_len(self.entries()),
    {
        proof {
            lemma_offsets_bytes(self.offsets@);
        }
        Block { data: self.data, offsets: self.offsets }
    }
}

} // verus!
