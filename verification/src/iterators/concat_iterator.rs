//! The concatenation of tables whose key ranges do not overlap.

use std::sync::Arc;
use vstd::prelude::*;
use crate::error::Error;
use crate::handle::share;
use crate::iterators::{lemma_lower_rank_is, lemma_unbounded, lower_rank, Bound, StorageIterator};
use crate::key::{key_le, key_less_eq, key_lt, lemma_key_le_lt, lemma_key_lt_transitive};
use crate::run::{
    concat_runs, is_run, lemma_concat_index, lemma_concat_is_run, lemma_prefix_len_ends,
    lemma_prefix_len_step, lemma_rank_bounds, lemma_rank_in_runs, lemma_run_skip,
    lemma_runs_first_keys, prefix_len, rank, runs_ordered, Entry,
};
use crate::table::iterator::SsTableIterator;
use crate::table::SsTable;

verus! {

/// The entries of each of `tables`.
pub open spec fn table_runs(tables: Seq<Arc<SsTable>>) -> Seq<Seq<Entry>> {
    Seq::new(tables.len(), |i: int| tables[i].entries())
}

/// Every table is well-formed and holds entries, and every table ends
/// before the next begins.
pub open spec fn tables_ordered(tables: Seq<Arc<SsTable>>) -> bool {
    &&& forall|i: int| 0 <= i < tables.len() ==> (#[trigger] tables[i]).wf()
    &&& runs_ordered(table_runs(tables))
}

/// Concatenates tables that are ordered by key and whose key ranges do not
/// overlap. Only one table is open at a time.
pub struct SstConcatIterator {
    current: Option<SsTableIterator>,
    next_sst_idx: usize,
    sstables: Vec<Arc<SsTable>>,
}

impl SstConcatIterator {
    /// The entries of each table.
    pub closed spec fn runs(&self) -> Seq<Seq<Entry>> {
        table_runs(self.sstables@)
    }

    /// The entries of all tables, in order.
    pub closed spec fn all_entries(&self) -> Seq<Entry> {
        concat_runs(table_runs(self.sstables@))
    }

    /// The index among all entries of the entry on which the iterator
    /// stands.
    pub closed spec fn position(&self) -> int {
        match self.current {
            Some(it) => prefix_len(self.runs(), self.next_sst_idx - 1) + it.position(),
            None => self.all_entries().len() as int,
        }
    }

    /// The iterator's invariant: the open table is the one before
    /// `next_sst_idx`, and its iterator stands on an entry.
    pub closed spec fn inv(&self) -> bool {
        &&& tables_ordered(self.sstables@)
        &&& self.next_sst_idx <= self.sstables@.len()
        &&& match self.current {
            Some(it) => {
                &&& it.wf()
                &&& self.next_sst_idx >= 1
                &&& it.table_entries() == self.runs()[self.next_sst_idx - 1]
                &&& it.bound() is Unbounded
                &&& it.remaining().len() > 0
            },
            None => true,
        }
    }

    /// What is left is what the tables hold from the position on.
    pub proof fn lemma_parts(&self)
        requires
            self.wf(),
        ensures
            is_run(self.all_entries()),
            0 <= self.position() <= self.all_entries().len(),
            self.remaining() == self.all_entries().skip(self.position()),
    {
        self.lemma_position();
    }

    proof fn lemma_position(&self)
        requires
            self.inv(),
        ensures
            is_run(self.all_entries()),
            0 <= self.position() <= self.all_entries().len(),
            self.current matches Some(it) ==> self.position() < self.all_entries().len()
                && it.remaining() == it.table_entries().skip(it.position()) && it.remaining()[0]
                == self.all_entries()[self.position()],
    {
        let runs = self.runs();
        lemma_concat_is_run(runs);
        match self.current {
            Some(it) => {
                it.lemma_parts();
                lemma_unbounded(it.table_entries().skip(it.position()), it.bound());
                lemma_concat_index(runs, self.next_sst_idx - 1, it.position());
            },
            None => {},
        }
    }

    /// Creates an iterator on `sstables` at the first entry of the first
    /// table.
    pub fn create_and_seek_to_first(sstables: Vec<Arc<SsTable>>) -> (r: Self)
        requires
            tables_ordered(sstables@),
        ensures
            r.wf(),
            r.all_entries() == concat_runs(table_runs(sstables@)),
            r.remaining() == r.all_entries(),
    {
        let ghost runs = table_runs(sstables@);
        proof {
            lemma_prefix_len_ends(runs);
            lemma_concat_is_run(runs);
        }
        if sstables.len() == 0 {
            let r = Self { current: None, next_sst_idx: 0, sstables };
            assert(r.all_entries().skip(r.position()) =~= r.all_entries());
            r
        } else {
            assert(sstables@[0].wf());
            assert(runs[0] == sstables@[0].entries());
            assert(is_run(runs[0]) && runs[0].len() > 0);
            let current = SsTableIterator::create_and_seek_to_first(share(&sstables[0]));
            let r = Self { current: Some(current), next_sst_idx: 1, sstables };
            assert(r.all_entries().skip(0) =~= r.all_entries());
            r
        }
    }

    /// The index of the last table that begins at or before `key`, or 0
    /// where there is none.
    fn find_table(sstables: &Vec<Arc<SsTable>>, key: &[u8]) -> (idx: usize)
        requires
            tables_ordered(sstables@),
        ensures
            idx == 0 || (idx < sstables@.len() && key_le(
                table_runs(sstables@)[idx as int][0].0,
                key@,
            )),
            forall|j: int|
                idx < j < sstables@.len() ==> !key_le(
                    (#[trigger] table_runs(sstables@)[j])[0].0,
                    key@,
                ),
    {
        let ghost runs = table_runs(sstables@);
        let mut lo: usize = 0;
        let mut hi: usize = sstables.len();
        while lo < hi
            invariant
                tables_ordered(sstables@),
                runs == table_runs(sstables@),
                lo <= hi <= sstables@.len(),
                forall|j: int| 0 <= j < lo ==> key_le((#[trigger] runs[j])[0].0, key@),
                forall|j: int| hi <= j < runs.len() ==> !key_le((#[trigger] runs[j])[0].0, key@),
            decreases hi - lo,
        {
            let mid = lo + (hi - lo) / 2;
            proof {
                assert(sstables@[mid as int].wf());
                sstables@[mid as int].lemma_entries();
                assert(runs[mid as int] == sstables@[mid as int].entries());
                assert(is_run(runs[mid as int]) && runs[mid as int].len() > 0);
            }
            if key_less_eq(sstables[mid].first_key(), key) {
                assert forall|j: int| 0 <= j < mid + 1 implies key_le(
                    (#[trigger] runs[j])[0].0,
                    key@,
                ) by {
                    if j < mid {
                        lemma_runs_first_keys(runs, j, mid as int);
                        if runs[mid as int][0].0 != key@ {
                            lemma_key_lt_transitive(runs[j][0].0, runs[mid as int][0].0, key@);
                        }
                    }
                }
                lo = mid + 1;
            } else {
                assert forall|j: int| mid <= j < runs.len() implies !key_le(
                    (#[trigger] runs[j])[0].0,
                    key@,
                ) by {
                    if j > mid {
                        lemma_runs_first_keys(runs, mid as int, j);
                        if key_le(runs[j][0].0, key@) {
                            lemma_key_le_lt(runs[mid as int][0].0, runs[j][0].0, key@);
                            if runs[j][0].0 != key@ {
                                lemma_key_lt_transitive(runs[mid as int][0].0, runs[j][0].0, key@);
                            }
                        }
                    }
                }
                hi = mid;
            }
        }
        if lo == 0 {
            0
        } else {
            lo - 1
        }
    }

    /// Creates an iterator on `sstables` at the first entry whose key is
    /// `>= key`.
    pub fn create_and_seek_to_key(sstables: Vec<Arc<SsTable>>, key: &[u8]) -> (r: Self)
        requires
            tables_ordered(sstables@),
        ensures
            r.wf(),
            r.all_entries() == concat_runs(table_runs(sstables@)),
            r.remaining() == r.all_entries().skip(rank(r.all_entries(), key@)),
    {
        let ghost runs = table_runs(sstables@);
        proof {
            lemma_prefix_len_ends(runs);
            lemma_concat_is_run(runs);
        }
        let idx = Self::find_table(&sstables, key);
        if idx >= sstables.len() {
            let r = Self { current: None, next_sst_idx: sstables.len(), sstables };
            assert(r.all_entries().skip(0) =~= r.all_entries());
            return r;
        }
        proof {
            assert(sstables@[idx as int].wf());
            assert(runs[idx as int] == sstables@[idx as int].entries());
            lemma_rank_in_runs(runs, idx as int, key@);
            lemma_rank_bounds(runs[idx as int], key@);
            lemma_prefix_len_step(runs, idx as int);
        }
        let current = SsTableIterator::create_and_seek_to_key(share(&sstables[idx]), key);
        proof {
            current.lemma_parts();
            lemma_unbounded(current.table_entries().skip(current.position()), current.bound());
        }
        let mut slf = Self { current: Some(current), next_sst_idx: idx + 1, sstables };
        slf.skip_invalid();
        slf
    }

    /// Creates an iterator on `sstables` at the first entry within the lower
    /// bound `lower`.
    pub fn create_and_seek_to_lower(sstables: Vec<Arc<SsTable>>, lower: &Bound) -> (r: Self)
        requires
            tables_ordered(sstables@),
        ensures
            r.wf(),
            r.all_entries() == concat_runs(table_runs(sstables@)),
            r.remaining() == r.all_entries().skip(lower_rank(r.all_entries(), *lower)),
    {
        match lower {
            Bound::Included(key) => Self::create_and_seek_from(sstables, key.as_slice(), lower),
            Bound::Excluded(key) => Self::create_and_seek_past(sstables, key.as_slice(), lower),
            Bound::Unbounded => {
                let r = Self::create_and_seek_to_first(sstables);
                proof {
                    lemma_lower_rank_is(r.all_entries(), *lower, 0);
                    assert(r.all_entries().skip(0) =~= r.all_entries());
                }
                r
            },
        }
    }

    /// Creates an iterator at the first entry whose key is `>= key`, the
    /// lower bound that includes `key`.
    fn create_and_seek_from(sstables: Vec<Arc<SsTable>>, key: &[u8], lower: &Bound) -> (r: Self)
        requires
            tables_ordered(sstables@),
            *lower matches Bound::Included(b) && b@ == key@,
        ensures
            r.wf(),
            r.all_entries() == concat_runs(table_runs(sstables@)),
            r.remaining() == r.all_entries().skip(lower_rank(r.all_entries(), *lower)),
    {
        let ghost es = concat_runs(table_runs(sstables@));
        proof {
            lemma_concat_is_run(table_runs(sstables@));
        }
        let r = Self::create_and_seek_to_key(sstables, key);
        proof {
            crate::run::lemma_rank_parts(es, key@);
            assert forall|i: int| 0 <= i < es.len() implies (lower.admits_above(
                (#[trigger] es[i]).0,
            ) <==> !key_lt(es[i].0, key@)) by {
                lemma_key_le_lt(key@, es[i].0, key@);
            }
            lemma_lower_rank_is(es, *lower, rank(es, key@));
        }
        r
    }

    /// Creates an iterator at the first entry whose key is `> key`, the
    /// lower bound that excludes `key`.
    fn create_and_seek_past(sstables: Vec<Arc<SsTable>>, key: &[u8], lower: &Bound) -> (r: Self)
        requires
            tables_ordered(sstables@),
            *lower matches Bound::Excluded(b) && b@ == key@,
        ensures
            r.wf(),
            r.all_entries() == concat_runs(table_runs(sstables@)),
            r.remaining() == r.all_entries().skip(lower_rank(r.all_entries(), *lower)),
    {
        let ghost es = concat_runs(table_runs(sstables@));
        proof {
            lemma_concat_is_run(table_runs(sstables@));
        }
        let mut r = Self::create_and_seek_to_key(sstables, key);
        let ghost p = rank(es, key@);
        proof {
            crate::run::lemma_rank_parts(es, key@);
            crate::key::lemma_key_lt_irreflexive(key@);
            assert forall|i: int| 0 <= i < p implies !lower.admits_above((#[trigger] es[i]).0) by {
                crate::key::lemma_key_lt_asymmetric(es[i].0, key@);
            }
            assert(es.skip(p).len() == es.len() - p);
            if p < es.len() {
                assert(es.skip(p)[0] == es[p]);
            }
        }
        if r.is_valid() && crate::key::key_equal(r.key(), key) {
            let _ = r.next();
            proof {
                assert(es.skip(p).skip(1) =~= es.skip(p + 1));
                if p + 1 < es.len() {
                    assert(key_lt(es[p].0, es[p + 1].0));
                }
                lemma_lower_rank_is(es, *lower, p + 1);
            }
        } else {
            proof {
                if p < es.len() {
                    crate::key::lemma_key_lt_total(es[p].0, key@);
                }
                lemma_lower_rank_is(es, *lower, p);
            }
        }
        r
    }

    /// Where the open table is done, opens the next, or none where there is
    /// no next.
    fn skip_invalid(&mut self)
        requires
            tables_ordered(old(self).sstables@),
            old(self).next_sst_idx <= old(self).sstables@.len(),
            old(self).current matches Some(it) ==> {
                &&& it.wf()
                &&& old(self).next_sst_idx >= 1
                &&& it.table_entries() == old(self).runs()[old(self).next_sst_idx - 1]
                &&& it.bound() is Unbounded
            },
        ensures
            final(self).inv(),
            final(self).sstables == old(self).sstables,
            final(self).position() == match old(self).current {
                Some(it) => prefix_len(old(self).runs(), old(self).next_sst_idx - 1)
                    + it.position(),
                None => old(self).all_entries().len() as int,
            },
    {
        let ghost runs = self.runs();
        proof {
            lemma_prefix_len_ends(runs);
        }
        let done = match &self.current {
            Some(it) => {
                proof {
                    it.lemma_parts();
                    lemma_unbounded(it.table_entries().skip(it.position()), it.bound());
                }
                !it.is_valid()
            },
            None => false,
        };
        if done {
            proof {
                lemma_prefix_len_step(runs, self.next_sst_idx - 1);
            }
            if self.next_sst_idx < self.sstables.len() {
                assert(self.sstables@[self.next_sst_idx as int].wf());
                assert(runs[self.next_sst_idx as int]
                    == self.sstables@[self.next_sst_idx as int].entries());
                assert(is_run(runs[self.next_sst_idx as int]) && runs[self.next_sst_idx as int].len()
                    > 0);
                let next = SsTableIterator::create_and_seek_to_first(
                    share(&self.sstables[self.next_sst_idx]),
                );
                self.current = Some(next);
                self.next_sst_idx += 1;
            } else {
                self.current = None;
            }
        }
    }
}

/// The value that the ordered tables `tables` hold for `key`, if they hold
/// one.
pub fn tables_get(tables: Vec<Arc<SsTable>>, key: &[u8]) -> (r: Option<Vec<u8>>)
    requires
        tables_ordered(tables@),
    ensures
        crate::table::iterator::option_view(r) == crate::run::lookup(
            concat_runs(table_runs(tables@)),
            key@,
        ),
{
    let ghost es = concat_runs(table_runs(tables@));
    proof {
        lemma_concat_is_run(table_runs(tables@));
        crate::run::lemma_lookup_rank(es, key@);
    }
    let it = SstConcatIterator::create_and_seek_to_key(tables, key);
    proof {
        let r = rank(es, key@);
        if r < es.len() {
            assert(es.skip(r)[0] == es[r]);
        }
    }
    if it.is_valid() && crate::key::key_equal(it.key(), key) {
        Some(vstd::slice::slice_to_vec(it.value()))
    } else {
        None
    }
}

impl StorageIterator for SstConcatIterator {
    closed spec fn wf(&self) -> bool {
        self.inv()
    }

    closed spec fn remaining(&self) -> Seq<Entry> {
        self.all_entries().skip(self.position())
    }

    open spec fn infallible() -> bool {
        true
    }

    open spec fn active_iterators(&self) -> nat {
        1
    }

    proof fn lemma_remaining(&self) {
        self.lemma_position();
        lemma_run_skip(self.all_entries(), self.position());
    }

    fn key(&self) -> (k: &[u8]) {
        proof {
            self.lemma_position();
        }
        match &self.current {
            Some(it) => it.key(),
            None => {
                let k: &[u8] = &[];
                k
            },
        }
    }

    fn value(&self) -> (v: &[u8]) {
        proof {
            self.lemma_position();
        }
        match &self.current {
            Some(it) => it.value(),
            None => {
                let v: &[u8] = &[];
                v
            },
        }
    }

    fn is_valid(&self) -> (b: bool) {
        proof {
            self.lemma_position();
        }
        match &self.current {
            Some(it) => it.is_valid(),
            None => false,
        }
    }

    fn next(&mut self) -> (r: Result<(), Error>)
        ensures
            r is Ok,
            final(self).all_entries() == old(self).all_entries(),
    {
        proof {
            self.lemma_position();
        }
        let ghost all = self.all_entries();
        let ghost p = self.position();
        match &mut self.current {
            Some(it) => {
                let ghost before = it.position();
                proof {
                    it.lemma_parts();
                }
                let r = it.next();
                proof {
                    it.lemma_parts();
                }
            },
            None => {
                return Ok(());
            },
        }
        self.skip_invalid();
        assert(all.skip(p).skip(1) =~= all.skip(p + 1));
        Ok(())
    }

    fn num_active_iterators(&self) -> (n: usize) {
        1
    }
}

} // verus!
