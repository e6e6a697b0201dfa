//! Walking the entries of a table.

use std::sync::Arc;
use vstd::prelude::*;
use crate::block::iterator::BlockIterator;
use crate::block::Block;
use crate::error::Error;
use crate::iterators::{
    bounded, lemma_bounded, lemma_bounded_advance, lemma_lower_rank_is, lemma_unbounded,
    lower_rank, Bound, StorageIterator,
};
use crate::key::{
    key_equal, key_le, key_lt, lemma_key_le_lt, lemma_key_lt_asymmetric,
    lemma_key_lt_irreflexive, lemma_key_lt_total,
};
use crate::run::{
    is_run, lemma_concat_index, lemma_prefix_len_ends, lemma_prefix_len_step, lemma_rank_bounds,
    lemma_rank_parts, lemma_run_skip, prefix_len, rank, Entry,
};
use crate::table::{
    block_ok, block_run, block_runs, blocks_ok, lemma_block_runs_ordered, table_run,
    BlockMetaView, SsTable,
};

verus! {

/// In a table, the rank of a key is its rank in the block that may hold it,
/// behind the entries of the blocks before.
pub proof fn lemma_seek(bytes: Seq<u8>, metas: Seq<BlockMetaView>, end: int, idx: int, key: Seq<u8>)
    requires
        blocks_ok(bytes, metas, end),
        0 <= idx < metas.len(),
        idx == 0 || key_le(metas[idx].first_key, key),
        forall|j: int| idx < j < metas.len() ==> !key_le((#[trigger] metas[j]).first_key, key),
    ensures
        rank(table_run(bytes, metas, end), key) == prefix_len(block_runs(bytes, metas, end), idx)
            + rank(block_run(bytes, metas, end, idx), key),
{
    let runs = block_runs(bytes, metas, end);
    lemma_block_runs_ordered(bytes, metas, end);
    assert(block_ok(bytes, metas, end, idx));
    assert(runs[idx] == block_run(bytes, metas, end, idx));
    assert forall|j: int| idx < j < runs.len() implies !key_le((#[trigger] runs[j])[0].0, key) by {
        assert(block_ok(bytes, metas, end, j));
        assert(!key_le(metas[j].first_key, key));
    }
    crate::run::lemma_rank_in_runs(runs, idx, key);
}

/// An iterator over the entries of a table, up to an upper bound.
pub struct SsTableIterator {
    table: Arc<SsTable>,
    blk_iter: BlockIterator,
    blk_idx: usize,
    end_bound: Bound,
}

impl SsTableIterator {
    /// The entries of the table that the iterator walks.
    pub closed spec fn table_entries(&self) -> Seq<Entry> {
        self.table.entries()
    }

    /// The upper bound of the iterator.
    pub closed spec fn bound(&self) -> Bound {
        self.end_bound
    }

    /// The index in the table of the entry on which the iterator stands,
    /// whatever the bound.
    pub closed spec fn position(&self) -> int {
        if self.blk_idx < self.table.runs().len() {
            prefix_len(self.table.runs(), self.blk_idx as int) + self.blk_iter.position()
        } else {
            self.table.entries().len() as int
        }
    }

    /// The iterator's invariant: the block iterator stands on an entry of
    /// the block at `blk_idx`, or all blocks are done.
    pub closed spec fn inv(&self) -> bool {
        &&& self.table.wf()
        &&& self.blk_iter.wf()
        &&& self.blk_idx <= self.table.runs().len()
        &&& self.blk_idx < self.table.runs().len() ==> {
            &&& self.blk_iter.block_entries() == self.table.runs()[self.blk_idx as int]
            &&& self.blk_iter.remaining().len() > 0
        }
    }

    /// What is left is what lies within the bound from the position on.
    pub proof fn lemma_parts(&self)
        requires
            self.wf(),
        ensures
            self.inv(),
            0 <= self.position() <= self.table_entries().len(),
            is_run(self.table_entries()),
            self.remaining() == bounded(self.table_entries().skip(self.position()), self.bound()),
    {
        self.lemma_position();
    }

    /// The position lies in the table; where it is not the end, the block
    /// iterator stands on the table's entry at the position.
    proof fn lemma_position(&self)
        requires
            self.inv(),
        ensures
            0 <= self.position() <= self.table.entries().len(),
            is_run(self.table.entries()),
            is_run(self.table.entries().skip(self.position())),
            self.blk_idx < self.table.runs().len() ==> self.position() < self.table.entries().len()
                && self.table.entries()[self.position()] == self.blk_iter.remaining()[0],
            self.blk_idx >= self.table.runs().len() ==> self.position()
                == self.table.entries().len(),
    {
        let runs = self.table.runs();
        self.table.lemma_entries();
        self.blk_iter.lemma_position();
        if self.blk_idx < runs.len() {
            lemma_concat_index(runs, self.blk_idx as int, self.blk_iter.position());
        }
        lemma_run_skip(self.table.entries(), self.position());
    }

    /// Moves to the first entry of block `blk_idx`, or to the end where
    /// there is no such block.
    fn load_block(&mut self, blk_idx: usize)
        requires
            old(self).table.wf(),
            old(self).blk_iter.wf(),
            blk_idx <= old(self).table.runs().len(),
        ensures
            final(self).inv(),
            final(self).table == old(self).table,
            final(self).end_bound == old(self).end_bound,
            final(self).blk_idx == blk_idx,
            final(self).position() == prefix_len(old(self).table.runs(), blk_idx as int),
    {
        proof {
            self.table.lemma_entries();
            lemma_prefix_len_ends(self.table.runs());
        }
        self.blk_idx = blk_idx;
        if blk_idx < self.table.num_of_blocks() {
            let block = self.table.read_block(self.blk_idx);
            self.blk_iter = BlockIterator::create_and_seek_to_first(block);
            proof {
                self.blk_iter.lemma_position();
            }
        }
    }

    /// Creates an iterator on `table` at its first entry.
    pub fn create_and_seek_to_first(table: Arc<SsTable>) -> (r: Self)
        requires
            table.wf(),
        ensures
            r.wf(),
            r.table_entries() == table.entries(),
            r.bound() is Unbounded,
            r.position() == 0,
            r.remaining() == table.entries(),
    {
        let blk_iter = BlockIterator::create_and_seek_to_first(Arc::new(Block::empty()));
        let mut r = Self { table, blk_iter, blk_idx: 0, end_bound: Bound::Unbounded };
        r.load_block(0);
        proof {
            lemma_prefix_len_ends(r.table.runs());
            assert(r.table.entries().skip(0) =~= r.table.entries());
            lemma_unbounded(r.table.entries(), r.end_bound);
        }
        r
    }

    /// Whether the iterator stands on an entry with the key `key`, whatever
    /// the bound.
    fn stands_on(&self, key: &[u8]) -> (r: bool)
        requires
            self.inv(),
        ensures
            r == (self.position() < self.table.entries().len()
                && self.table.entries()[self.position()].0 == key@),
    {
        proof {
            self.lemma_position();
        }
        self.blk_idx < self.table.num_of_blocks() && key_equal(self.blk_iter.key(), key)
    }

    /// Creates an iterator on the entries of `table` between `lower` and
    /// `upper`.
    pub fn scan(table: Arc<SsTable>, lower: &Bound, upper: Bound) -> (r: Self)
        requires
            table.wf(),
        ensures
            r.wf(),
            r.table_entries() == table.entries(),
            r.bound() == upper,
            r.remaining() == bounded(
                table.entries().skip(lower_rank(table.entries(), *lower)),
                upper,
            ),
    {
        let mut slf = Self::create_and_seek_to_first(table);
        let ghost es = slf.table.entries();
        proof {
            slf.table.lemma_entries();
        }
        match lower {
            Bound::Included(key) => {
                slf.seek_to_key(key.as_slice());
                proof {
                    lemma_rank_parts(es, key@);
                    assert forall|i: int| 0 <= i < es.len() implies (lower.admits_above(
                        (#[trigger] es[i]).0,
                    ) <==> !key_lt(es[i].0, key@)) by {
                        lemma_key_le_lt(key@, es[i].0, key@);
                    }
                    lemma_lower_rank_is(es, *lower, rank(es, key@));
                }
            },
            Bound::Excluded(key) => {
                slf.seek_to_key(key.as_slice());
                let ghost p = slf.position();
                proof {
                    slf.lemma_position();
                    lemma_rank_parts(es, key@);
                    lemma_key_lt_irreflexive(key@);
                    assert forall|i: int| 0 <= i < p implies !lower.admits_above(
                        (#[trigger] es[i]).0,
                    ) by {
                        lemma_key_lt_asymmetric(es[i].0, key@);
                    }
                }
                if slf.stands_on(key.as_slice()) {
                    slf.step();
                    proof {
                        if p + 1 < es.len() {
                            assert(key_lt(es[p].0, es[p + 1].0));
                        }
                        lemma_lower_rank_is(es, *lower, p + 1);
                    }
                } else {
                    proof {
                        if p < es.len() {
                            lemma_key_lt_total(es[p].0, key@);
                        }
                        lemma_lower_rank_is(es, *lower, p);
                    }
                }
            },
            Bound::Unbounded => {
                proof {
                    lemma_lower_rank_is(es, *lower, 0);
                }
            },
        }
        slf.end_bound = upper;
        slf
    }

    /// Moves to the first entry of the table.
    pub fn seek_to_first(&mut self)
        requires
            old(self).wf(),
        ensures
            final(self).wf(),
            final(self).table_entries() == old(self).table_entries(),
            final(self).bound() == old(self).bound(),
            final(self).position() == 0,
            final(self).remaining() == bounded(old(self).table_entries(), old(self).bound()),
    {
        self.load_block(0);
        proof {
            lemma_prefix_len_ends(self.table.runs());
            assert(self.table.entries().skip(0) =~= self.table.entries());
        }
    }

    /// Creates an iterator on `table` at the first entry whose key is
    /// `>= key`.
    pub fn create_and_seek_to_key(table: Arc<SsTable>, key: &[u8]) -> (r: Self)
        requires
            table.wf(),
        ensures
            r.wf(),
            r.table_entries() == table.entries(),
            r.bound() is Unbounded,
            r.remaining() == table.entries().skip(rank(table.entries(), key@)),
    {
        let mut slf = Self::create_and_seek_to_first(table);
        slf.seek_to_key(key);
        proof {
            lemma_unbounded(slf.table.entries().skip(slf.position()), slf.end_bound);
        }
        slf
    }

    /// Moves to the first entry of the table whose key is `>= key`.
    pub fn seek_to_key(&mut self, key: &[u8])
        requires
            old(self).wf(),
        ensures
            final(self).wf(),
            final(self).table_entries() == old(self).table_entries(),
            final(self).bound() == old(self).bound(),
            final(self).position() == rank(old(self).table_entries(), key@),
            final(self).remaining() == bounded(
                old(self).table_entries().skip(rank(old(self).table_entries(), key@)),
                old(self).bound(),
            ),
    {
        let blk_idx = self.table.find_block_idx(key);
        if blk_idx >= self.table.num_of_blocks() {
            // A table without blocks.
            proof {
                self.table.lemma_entries();
            }
            self.load_block(0);
            proof {
                lemma_prefix_len_ends(self.table.runs());
            }
            return;
        }
        proof {
            self.table.lemma_rank(blk_idx as int, key@);
        }
        self.seek_in_block(blk_idx, key);
    }

    /// Moves to the first entry of block `blk_idx` whose key is `>= key`,
    /// or to the next block where the block holds none.
    fn seek_in_block(&mut self, blk_idx: usize, key: &[u8])
        requires
            old(self).table.wf(),
            old(self).blk_iter.wf(),
            blk_idx < old(self).table.runs().len(),
        ensures
            final(self).inv(),
            final(self).table == old(self).table,
            final(self).end_bound == old(self).end_bound,
            final(self).position() == prefix_len(old(self).table.runs(), blk_idx as int) + rank(
                old(self).table.runs()[blk_idx as int],
                key@,
            ),
    {
        let ghost runs = self.table.runs();
        let n = self.table.num_of_blocks();
        self.load_block(blk_idx);
        self.blk_iter.seek_to_key(key);
        proof {
            self.blk_iter.lemma_position();
            lemma_rank_bounds(runs[blk_idx as int], key@);
        }
        if !self.blk_iter.is_valid() && blk_idx < n {
            proof {
                lemma_prefix_len_step(runs, blk_idx as int);
            }
            self.load_block(blk_idx + 1);
        }
    }

    /// Moves to the next entry of the table, whatever the bound.
    fn step(&mut self)
        requires
            old(self).inv(),
            old(self).position() < old(self).table.entries().len(),
        ensures
            final(self).inv(),
            final(self).table == old(self).table,
            final(self).end_bound == old(self).end_bound,
            final(self).position() == old(self).position() + 1,
    {
        proof {
            self.lemma_position();
            self.blk_iter.lemma_position();
            lemma_prefix_len_step(self.table.runs(), self.blk_idx as int);
        }
        let n = self.table.num_of_blocks();
        self.blk_iter.next();
        proof {
            self.blk_iter.lemma_position();
        }
        if !self.blk_iter.is_valid() && self.blk_idx < n {
            self.load_block(self.blk_idx + 1);
        }
    }
}

/// A value as plain bytes.
pub open spec fn option_view(v: Option<Vec<u8>>) -> Option<Seq<u8>> {
    match v {
        Some(x) => Some(x@),
        None => None,
    }
}

/// The value that `table` holds for `key`, if it holds one. The filter is
/// asked first; the table is read only where the filter admits the key.
pub fn table_get(table: &Arc<SsTable>, key: &[u8]) -> (r: Option<Vec<u8>>)
    requires
        table.wf(),
    ensures
        option_view(r) == crate::run::lookup(table.entries(), key@),
{
    proof {
        table.lemma_entries();
        crate::run::lemma_lookup_rank(table.entries(), key@);
        crate::run::lemma_lookup_has_key(table.entries(), key@);
    }
    if !table.may_contain(key) {
        return None;
    }
    let it = SsTableIterator::create_and_seek_to_key(crate::handle::share(table), key);
    proof {
        let r = rank(table.entries(), key@);
        if r < table.entries().len() {
            assert(table.entries().skip(r)[0] == table.entries()[r]);
        }
    }
    if it.is_valid() && key_equal(it.key(), key) {
        Some(vstd::slice::slice_to_vec(it.value()))
    } else {
        None
    }
}

impl StorageIterator for SsTableIterator {
    closed spec fn wf(&self) -> bool {
        self.inv()
    }

    closed spec fn remaining(&self) -> Seq<Entry> {
        bounded(self.table.entries().skip(self.position()), self.end_bound)
    }

    open spec fn infallible() -> bool {
        true
    }

    open spec fn active_iterators(&self) -> nat {
        1
    }

    proof fn lemma_remaining(&self) {
        self.lemma_position();
        lemma_bounded(self.table.entries().skip(self.position()), self.end_bound);
    }

    /// The key of the entry at the position, as the block iterator holds it.
    fn key(&self) -> (k: &[u8]) {
        proof {
            self.lemma_position();
        }
        self.blk_iter.key()
    }

    /// The value of the entry at the position, as the block iterator holds
    /// it.
    fn value(&self) -> (v: &[u8]) {
        proof {
            self.lemma_position();
        }
        self.blk_iter.value()
    }

    /// Whether the iterator stands on an entry within its bound.
    fn is_valid(&self) -> (b: bool) {
        proof {
            self.lemma_position();
        }
        if !(self.blk_idx < self.table.num_of_blocks() && self.blk_iter.is_valid()) {
            return false;
        }
        self.end_bound.holds_below(self.blk_iter.key())
    }

    /// Moves to the next entry, into the next block where the current one
    /// is done.
    fn next(&mut self) -> (r: Result<(), Error>)
        ensures
            r is Ok,
            final(self).table_entries() == old(self).table_entries(),
            final(self).bound() == old(self).bound(),
            final(self).position() == if old(self).remaining().len() > 0 {
                old(self).position() + 1
            } else {
                old(self).position()
            },
    {
        proof {
            self.lemma_position();
            lemma_bounded_advance(self.table.entries().skip(self.position()), self.end_bound);
        }
        if self.is_valid() {
            let ghost p = self.position();
            self.step();
            assert(self.table.entries().skip(p).skip(1) =~= self.table.entries().skip(p + 1));
        }
        Ok(())
    }

    fn num_active_iterators(&self) -> (n: usize) {
        1
    }
}

} // verus!
