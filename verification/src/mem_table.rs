//! The memtable: the sorted map that takes the writes.

use std::sync::Arc;
use vstd::prelude::*;
use vstd::slice::slice_to_vec;
use crate::error::Error;
use crate::iterators::{
    bounded, lemma_bounded, lemma_bounded_advance, lemma_lower_rank_is, lower_rank, Bound,
    StorageIterator,
};
use crate::key::{
    key_equal, key_less, key_lt, lemma_key_le_lt, lemma_key_lt_asymmetric,
    lemma_key_lt_irreflexive, lemma_key_lt_total, lemma_key_lt_transitive,
};
use crate::run::{
    entry_storable, is_run, lemma_lookup_rank, lemma_rank_is, lemma_rank_parts, lemma_run_skip,
    lemma_upsert, lookup, rank, upsert, Entry,
};
use crate::table::builder::SsTableBuilder;

verus! {

/// The entries of `items` as plain values.
pub open spec fn items_view(items: Seq<(Vec<u8>, Vec<u8>)>) -> Seq<Entry> {
    Seq::new(items.len(), |i: int| (items[i].0@, items[i].1@))
}

/// A sorted map from keys to values, held in memory. An empty value is a
/// tombstone: it says that the key was deleted.
#[derive(Debug)]
pub struct MemTable {
    /// The entries, ascending by key.
    entries: Vec<(Vec<u8>, Vec<u8>)>,
    /// The id of the memtable.
    id: usize,
    /// The bytes of all keys and values ever put.
    approximate_size: usize,
}

impl MemTable {
    /// The entries of the memtable, ascending by key.
    pub closed spec fn run(&self) -> Seq<Entry> {
        items_view(self.entries@)
    }

    /// The id of the memtable.
    pub closed spec fn id_spec(&self) -> usize {
        self.id
    }

    /// The bytes of all keys and values ever put, as far as a `usize`
    /// counts.
    pub closed spec fn size_spec(&self) -> usize {
        self.approximate_size
    }

    /// The memtable's invariant: its entries are a run.
    pub closed spec fn wf(&self) -> bool {
        is_run(self.run())
    }

    /// The entries of a memtable are a run.
    pub proof fn lemma_run(&self)
        requires
            self.wf(),
        ensures
            is_run(self.run()),
    {
    }

    /// Creates an empty memtable.
    pub fn create(id: usize) -> (r: Self)
        ensures
            r.wf(),
            r.run().len() == 0,
            r.id_spec() == id,
            r.size_spec() == 0,
    {
        Self { entries: Vec::new(), id, approximate_size: 0 }
    }

    /// The index of the first entry whose key is `>= key`.
    fn find(&self, key: &[u8]) -> (r: usize)
        requires
            self.wf(),
        ensures
            r == rank(self.run(), key@),
            r <= self.run().len(),
    {
        let ghost es = self.run();
        let mut lo: usize = 0;
        let mut hi: usize = self.entries.len();
        while lo < hi
            invariant
                self.wf(),
                es == self.run(),
                lo <= hi <= es.len(),
                es.len() == self.entries@.len(),
                forall|j: int| 0 <= j < lo ==> key_lt((#[trigger] es[j]).0, key@),
                forall|j: int| hi <= j < es.len() ==> !key_lt((#[trigger] es[j]).0, key@),
            decreases hi - lo,
        {
            let mid = lo + (hi - lo) / 2;
            assert(es[mid as int].0 == self.entries@[mid as int].0@);
            if key_less(self.entries[mid].0.as_slice(), key) {
                assert forall|j: int| 0 <= j < mid + 1 implies key_lt((#[trigger] es[j]).0, key@) by {
                    if j < mid {
                        assert(key_lt(es[j].0, es[mid as int].0));
                        lemma_key_lt_transitive(es[j].0, es[mid as int].0, key@);
                    }
                }
                lo = mid + 1;
            } else {
                assert forall|j: int| mid <= j < es.len() implies !key_lt(
                    (#[trigger] es[j]).0,
                    key@,
                ) by {
                    if j > mid {
                        assert(key_lt(es[mid as int].0, es[j].0));
                        if key_lt(es[j].0, key@) {
                            lemma_key_lt_transitive(es[mid as int].0, es[j].0, key@);
                        }
                    }
                }
                hi = mid;
            }
        }
        proof {
            lemma_rank_is(es, key@, lo as int);
        }
        lo
    }

    /// The value of `key`, if the memtable holds one. An empty value says
    /// that the key was deleted.
    pub fn get(&self, key: &[u8]) -> (r: Option<Vec<u8>>)
        requires
            self.wf(),
        ensures
            match lookup(self.run(), key@) {
                Some(v) => r matches Some(x) && x@ == v,
                None => r is None,
            },
    {
        proof {
            lemma_lookup_rank(self.run(), key@);
        }
        let at = self.find(key);
        if at < self.entries.len() {
            assert(self.run()[at as int] == (self.entries@[at as int].0@, self.entries@[at as int].1@));
            if key_equal(self.entries[at].0.as_slice(), key) {
                return Some(slice_to_vec(self.entries[at].1.as_slice()));
            }
        }
        None
    }

    /// Puts a value for a key, in place of the value that the key had:
    /// `InvalidEntry` for an empty key, or a key or value too long for the
    /// table format.
    pub fn put(&mut self, key: &[u8], value: &[u8]) -> (r: Result<(), Error>)
        requires
            old(self).wf(),
        ensures
            final(self).wf(),
            final(self).id_spec() == old(self).id_spec(),
            r is Ok <==> entry_storable((key@, value@)),
            r is Ok ==> final(self).run() == upsert(old(self).run(), key@, value@),
            r is Ok ==> final(self).size_spec() == if old(self).size_spec() + key@.len()
                + value@.len() <= usize::MAX {
                (old(self).size_spec() + key@.len() + value@.len()) as usize
            } else {
                usize::MAX
            },
            r matches Err(e) ==> e == Error::InvalidEntry && final(self).run() == old(self).run()
                && final(self).size_spec() == old(self).size_spec(),
    {
        if key.len() == 0 || key.len() > 0xFFFF || value.len() > 0xFFFF {
            return Err(Error::InvalidEntry);
        }
        let ghost es = self.run();
        proof {
            lemma_upsert(es, key@, value@);
        }
        let at = self.find(key);
        let entry = (slice_to_vec(key), slice_to_vec(value));
        let mut replace = false;
        if at < self.entries.len() {
            assert(es[at as int].0 == self.entries@[at as int].0@);
            replace = key_equal(self.entries[at].0.as_slice(), key);
        }
        if replace {
            self.entries[at] = entry;
            assert(self.run() =~= es.update(at as int, (key@, value@)));
        } else {
            self.entries.insert(at, entry);
            assert(self.run() =~= es.insert(at as int, (key@, value@)));
        }
        self.approximate_size = self.approximate_size.saturating_add(key.len()).saturating_add(
            value.len(),
        );
        Ok(())
    }

    /// The bytes of all keys and values ever put.
    pub fn approximate_size(&self) -> (n: usize)
        ensures
            n == self.size_spec(),
    {
        self.approximate_size
    }

    /// Whether the memtable holds no entry.
    pub fn is_empty(&self) -> (b: bool)
        ensures
            b == (self.run().len() == 0),
    {
        self.entries.len() == 0
    }

    /// The number of entries.
    pub fn len(&self) -> (n: usize)
        ensures
            n == self.run().len(),
    {
        self.entries.len()
    }

    /// The id of the memtable.
    pub fn id(&self) -> (id: usize)
        ensures
            id == self.id_spec(),
    {
        self.id
    }

    /// The key of entry `i`.
    pub fn key_at(&self, i: usize) -> (k: &[u8])
        requires
            i < self.run().len(),
        ensures
            k@ == self.run()[i as int].0,
    {
        self.entries[i].0.as_slice()
    }

    /// The value of entry `i`.
    pub fn value_at(&self, i: usize) -> (v: &[u8])
        requires
            i < self.run().len(),
        ensures
            v@ == self.run()[i as int].1,
    {
        self.entries[i].1.as_slice()
    }

    /// A copy of the memtable.
    pub fn duplicate(&self) -> (r: Self)
        requires
            self.wf(),
        ensures
            r.wf(),
            r.run() == self.run(),
            r.id_spec() == self.id_spec(),
            r.size_spec() == self.size_spec(),
    {
        let mut entries: Vec<(Vec<u8>, Vec<u8>)> = Vec::new();
        let n = self.entries.len();
        let mut i: usize = 0;
        while i < n
            invariant
                n == self.entries@.len(),
                i <= n,
                entries@.len() == i,
                items_view(entries@) == self.run().take(i as int),
            decreases n - i,
        {
            let key = slice_to_vec(self.entries[i].0.as_slice());
            let value = slice_to_vec(self.entries[i].1.as_slice());
            let ghost before = items_view(entries@);
            let ghost items = entries@;
            entries.push((key, value));
            proof {
                let after = items_view(entries@);
                assert(self.run()[i as int] == (key@, value@));
                assert forall|j: int| 0 <= j < after.len() implies after[j] == self.run().take(
                    i + 1,
                )[j] by {
                    if j < i {
                        assert(entries@[j] == items[j]);
                        assert(before[j] == (items[j].0@, items[j].1@));
                        assert(self.run().take(i as int)[j] == self.run()[j]);
                    }
                }
                assert(after =~= self.run().take(i + 1));
            }
            i += 1;
        }
        assert(self.run().take(n as int) =~= self.run());
        Self { entries, id: self.id, approximate_size: self.approximate_size }
    }

    /// Adds every entry of the memtable to `builder`.
    pub fn flush(&self, builder: &mut SsTableBuilder)
        requires
            self.wf(),
            old(builder).wf(),
            old(builder).entries().len() == 0,
        ensures
            final(builder).wf(),
            final(builder).entries() == self.run(),
            final(builder).target_block_size() == old(builder).target_block_size(),
    {
        let ghost es = self.run();
        let n = self.entries.len();
        let mut i: usize = 0;
        assert(builder.entries() =~= es.take(0));
        while i < n
            invariant
                self.wf(),
                es == self.run(),
                n == es.len(),
                i <= n,
                builder.wf(),
                builder.entries() == es.take(i as int),
                builder.target_block_size() == old(builder).target_block_size(),
            decreases n - i,
        {
            proof {
                assert(entry_storable(es[i as int]));
                if i > 0 {
                    assert(es.take(i as int).last() == es[i - 1]);
                    assert(key_lt(es[i - 1].0, es[i as int].0));
                }
            }
            builder.add(self.key_at(i), self.value_at(i));
            assert(es.take(i as int).push(es[i as int]) =~= es.take(i + 1));
            i += 1;
        }
        assert(es.take(n as int) =~= es);
    }
}

/// An iterator over the entries of a memtable within a range of keys.
pub struct MemTableIterator {
    table: Arc<MemTable>,
    idx: usize,
    end_bound: Bound,
}

impl MemTableIterator {
    /// The entries of the memtable that the iterator walks.
    pub closed spec fn table_run(&self) -> Seq<Entry> {
        self.table.run()
    }

    /// Creates an iterator on the entries of `table` between `lower` and
    /// `upper`.
    pub fn create(table: Arc<MemTable>, lower: &Bound, upper: Bound) -> (r: Self)
        requires
            table.wf(),
        ensures
            r.wf(),
            r.table_run() == table.run(),
            r.remaining() == bounded(table.run().skip(lower_rank(table.run(), *lower)), upper),
    {
        let ghost es = table.run();
        let idx = match lower {
            Bound::Included(key) => {
                let at = table.find(key.as_slice());
                proof {
                    lemma_rank_parts(es, key@);
                    assert forall|i: int| 0 <= i < es.len() implies (lower.admits_above(
                        (#[trigger] es[i]).0,
                    ) <==> !key_lt(es[i].0, key@)) by {
                        lemma_key_le_lt(key@, es[i].0, key@);
                    }
                    lemma_lower_rank_is(es, *lower, at as int);
                }
                at
            },
            Bound::Excluded(key) => {
                let at = table.find(key.as_slice());
                proof {
                    lemma_rank_parts(es, key@);
                    lemma_key_lt_irreflexive(key@);
                    assert forall|i: int| 0 <= i < at implies !lower.admits_above(
                        (#[trigger] es[i]).0,
                    ) by {
                        lemma_key_lt_asymmetric(es[i].0, key@);
                    }
                }
                if at < table.len() && key_equal(table.key_at(at), key.as_slice()) {
                    proof {
                        if at + 1 < es.len() {
                            assert(key_lt(es[at as int].0, es[at + 1].0));
                        }
                        lemma_lower_rank_is(es, *lower, at + 1);
                    }
                    at + 1
                } else {
                    proof {
                        if at < es.len() {
                            lemma_key_lt_total(es[at as int].0, key@);
                        }
                        lemma_lower_rank_is(es, *lower, at as int);
                    }
                    at
                }
            },
            Bound::Unbounded => {
                proof {
                    lemma_lower_rank_is(es, *lower, 0);
                }
                0
            },
        };
        Self { table, idx, end_bound: upper }
    }
}

impl StorageIterator for MemTableIterator {
    closed spec fn wf(&self) -> bool {
        self.table.wf() && self.idx <= self.table.run().len()
    }

    closed spec fn remaining(&self) -> Seq<Entry> {
        bounded(self.table.run().skip(self.idx as int), self.end_bound)
    }

    open spec fn infallible() -> bool {
        true
    }

    open spec fn active_iterators(&self) -> nat {
        1
    }

    proof fn lemma_remaining(&self) {
        lemma_run_skip(self.table.run(), self.idx as int);
        lemma_bounded(self.table.run().skip(self.idx as int), self.end_bound);
    }

    fn key(&self) -> (k: &[u8]) {
        if self.idx < self.table.len() {
            self.table.key_at(self.idx)
        } else {
            let k: &[u8] = &[];
            k
        }
    }

    fn value(&self) -> (v: &[u8]) {
        if self.idx < self.table.len() {
            self.table.value_at(self.idx)
        } else {
            let v: &[u8] = &[];
            v
        }
    }

    fn is_valid(&self) -> (b: bool) {
        self.idx < self.table.len() && self.end_bound.holds_below(self.table.key_at(self.idx))
    }

    fn next(&mut self) -> (r: Result<(), Error>)
        ensures
            r is Ok,
    {
        proof {
            lemma_bounded_advance(self.table.run().skip(self.idx as int), self.end_bound);
        }
        let n = self.table.len();
        if self.is_valid() && self.idx < n {
            assert(self.table.run().skip(self.idx as int).skip(1) =~= self.table.run().skip(
                self.idx + 1,
            ));
            self.idx += 1;
        }
        Ok(())
    }

    fn num_active_iterators(&self) -> (n: usize) {
        1
    }
}

} // verus!
