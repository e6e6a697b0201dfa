//! The state of the store and the engine that owns it.

use std::collections::HashMap;
use std::sync::Arc;
use vstd::prelude::*;
use crate::block::builder::MAX_BLOCK_SIZE;
use crate::compact::leveled::LeveledCompactionController;
use crate::compact::simple_leveled::SimpleLeveledCompactionController;
use crate::compact::tiered::{all_ids, TieredCompactionController};
use crate::compact::writer::ids_from;
use crate::compact::{contains_id, CompactionController, CompactionOptions};
use crate::error::Error;
use crate::compact::plan::same_ids;
use crate::handle::{same_handle, share, unwrap_or_keep};
use crate::iterators::concat_iterator::{
    table_runs, tables_get, tables_ordered, SstConcatIterator,
};
use crate::iterators::merge_iterator::MergeIterator;
use crate::iterators::two_merge_iterator::TwoMergeIterator;
use crate::iterators::{
    all_runs, bounded, first_some, from_lower, lemma_first_some_concat, lemma_first_some_step,
    lemma_scan_tree, lemma_unbounded, live, lower_rank, merge_all, visible, Bound, StorageIterator,
};
use crate::lsm_iterator::{FusedIterator, LsmIterator};
use crate::mem_table::{MemTable, MemTableIterator};
use crate::table::builder::SsTableBuilder;
use crate::table::iterator::SsTableIterator;
use crate::run::{
    concat_runs, entry_storable, is_run, lemma_concat_is_run, lemma_upsert, lookup, upsert, Entry,
};
use crate::table::iterator::{option_view, table_get};
use crate::table::layout::{blocks_of, filter_start};
use crate::table::SsTable;

verus! {

broadcast use vstd::std_specs::hash::group_hash_axioms;

/// The ids of the tables of each level, as plain values.
pub open spec fn levels_view(levels: Seq<(usize, Vec<usize>)>) -> Seq<(usize, Seq<usize>)> {
    Seq::new(levels.len(), |i: int| (levels[i].0, levels[i].1@))
}

/// A copy of `ids`.
pub fn copy_ids(ids: &Vec<usize>) -> (r: Vec<usize>)
    ensures
        r@ == ids@,
{
    let mut r: Vec<usize> = Vec::new();
    let mut i: usize = 0;
    while i < ids.len()
        invariant
            i <= ids@.len(),
            r@ == ids@.take(i as int),
        decreases ids@.len() - i,
    {
        r.push(ids[i]);
        assert(r@ =~= ids@.take(i + 1));
        i += 1;
    }
    assert(ids@.take(ids@.len() as int) =~= ids@);
    r
}

/// A copy of `levels`.
pub fn copy_levels(levels: &Vec<(usize, Vec<usize>)>) -> (r: Vec<(usize, Vec<usize>)>)
    ensures
        levels_view(r@) == levels_view(levels@),
{
    let mut r: Vec<(usize, Vec<usize>)> = Vec::new();
    let mut i: usize = 0;
    while i < levels.len()
        invariant
            i <= levels@.len(),
            r@.len() == i,
            levels_view(r@) == levels_view(levels@).take(i as int),
        decreases levels@.len() - i,
    {
        let ghost before = r@;
        let ids = copy_ids(&levels[i].1);
        r.push((levels[i].0, ids));
        proof {
            assert forall|j: int| 0 <= j < i + 1 implies levels_view(r@)[j] == levels_view(
                levels@,
            ).take(i + 1)[j] by {
                if j < i {
                    assert(r@[j] == before[j]);
                    assert(levels_view(before)[j] == levels_view(levels@).take(i as int)[j]);
                }
            }
            assert(levels_view(r@) =~= levels_view(levels@).take(i + 1));
        }
        i += 1;
    }
    assert(levels_view(levels@).take(levels@.len() as int) =~= levels_view(levels@));
    r
}

/// The state of the store at one point in time: the memtables, and the
/// tables of level 0 and of the levels below.
pub struct LsmStorageState {
    /// The memtable that takes the writes.
    pub memtable: Arc<MemTable>,
    /// The frozen memtables, newest first.
    pub imm_memtables: Vec<Arc<MemTable>>,
    /// The ids of the tables of level 0, newest first.
    pub l0_sstables: Vec<usize>,
    /// The ids of the tables of each level below level 0, by key range,
    /// with the number of the level (or of the tier).
    pub levels: Vec<(usize, Vec<usize>)>,
    /// The open tables, by id.
    pub sstables: HashMap<usize, Arc<SsTable>>,
}

impl LsmStorageState {
    /// The tables with the ids `ids`.
    pub open spec fn tables_of(&self, ids: Seq<usize>) -> Seq<Arc<SsTable>> {
        Seq::new(ids.len(), |i: int| self.sstables@[ids[i]])
    }

    /// Every id of `ids` is that of an open table.
    pub open spec fn ids_present(&self, ids: Seq<usize>) -> bool {
        forall|i: int| 0 <= i < ids.len() ==> self.sstables@.contains_key(#[trigger] ids[i])
    }

    /// The entries of the memtable and of each frozen memtable, newest
    /// first.
    pub open spec fn mem_runs(&self) -> Seq<Seq<Entry>> {
        seq![self.memtable.run()] + Seq::new(
            self.imm_memtables@.len(),
            |i: int| self.imm_memtables@[i].run(),
        )
    }

    /// The entries of each table of level 0, newest first.
    pub open spec fn l0_runs(&self) -> Seq<Seq<Entry>> {
        table_runs(self.tables_of(self.l0_sstables@))
    }

    /// The entries of level `j`: those of its tables, in order.
    pub open spec fn level_run(&self, j: int) -> Seq<Entry> {
        concat_runs(table_runs(self.tables_of(self.levels@[j].1@)))
    }

    /// The entries of each level below level 0.
    pub open spec fn level_runs(&self) -> Seq<Seq<Entry>> {
        Seq::new(self.levels@.len(), |j: int| self.level_run(j))
    }

    /// The layers of the store, the newest first: a key has the value of
    /// the first layer that holds it.
    pub open spec fn layers(&self) -> Seq<Seq<Entry>> {
        self.mem_runs() + self.l0_runs() + self.level_runs()
    }

    /// What a reader gets for the key `k`: the value of the first layer
    /// that holds the key, unless that value is a tombstone.
    pub open spec fn get_spec(&self, k: Seq<u8>) -> Option<Seq<u8>> {
        visible(first_some(self.layers(), k))
    }

    /// The ids of all tables of the store.
    pub open spec fn table_ids(&self) -> Seq<usize> {
        self.l0_sstables@ + all_ids(levels_view(self.levels@))
    }

    /// The state's invariant: the memtables are runs; every id names an
    /// open, well-formed table that holds entries; the tables of each level
    /// below level 0 are ordered by key range; no table is open that no id
    /// names.
    pub open spec fn wf(&self) -> bool {
        &&& self.memtable.wf()
        &&& forall|i: int|
            0 <= i < self.imm_memtables@.len() ==> (#[trigger] self.imm_memtables@[i]).wf()
        &&& self.ids_present(self.l0_sstables@)
        &&& forall|i: int|
            0 <= i < self.l0_sstables@.len() ==> (#[trigger] self.tables_of(
                self.l0_sstables@,
            )[i]).wf() && self.tables_of(self.l0_sstables@)[i].entries().len() > 0
        &&& forall|j: int|
            0 <= j < self.levels@.len() ==> self.ids_present((#[trigger] self.levels@[j]).1@)
                && tables_ordered(self.tables_of(self.levels@[j].1@))
        &&& forall|id: usize| self.sstables@.contains_key(id) ==> self.table_ids().contains(id)
    }

    /// Every layer of the store is a run.
    pub proof fn lemma_layers(&self)
        requires
            self.wf(),
        ensures
            all_runs(self.mem_runs()),
            all_runs(self.l0_runs()),
            all_runs(self.level_runs()),
            all_runs(self.layers()),
    {
        assert forall|i: int| 0 <= i < self.mem_runs().len() implies is_run(
            #[trigger] self.mem_runs()[i],
        ) by {
            if i == 0 {
                self.memtable.lemma_run();
            } else {
                assert(self.imm_memtables@[i - 1].wf());
                self.imm_memtables@[i - 1].lemma_run();
            }
        }
        assert forall|i: int| 0 <= i < self.l0_runs().len() implies is_run(
            #[trigger] self.l0_runs()[i],
        ) by {
            assert(self.tables_of(self.l0_sstables@)[i].wf());
            self.tables_of(self.l0_sstables@)[i].lemma_entries();
        }
        assert forall|j: int| 0 <= j < self.level_runs().len() implies is_run(
            #[trigger] self.level_runs()[j],
        ) by {
            assert(tables_ordered(self.tables_of(self.levels@[j].1@)));
            lemma_concat_is_run(table_runs(self.tables_of(self.levels@[j].1@)));
        }
    }

    /// The open table with the id `id`.
    pub fn table(&self, id: usize) -> (r: Arc<SsTable>)
        requires
            self.sstables@.contains_key(id),
        ensures
            r == self.sstables@[id],
    {
        let ids = vec![id];
        assert(self.ids_present(ids@));
        let mut tables = self.tables(&ids);
        assert(tables@.len() == 1);
        let r = tables.pop();
        r.unwrap()
    }

    /// The open tables with the ids `ids`.
    pub fn tables(&self, ids: &Vec<usize>) -> (r: Vec<Arc<SsTable>>)
        requires
            self.ids_present(ids@),
        ensures
            r@ == self.tables_of(ids@),
    {
        let mut r: Vec<Arc<SsTable>> = Vec::new();
        let mut i: usize = 0;
        while i < ids.len()
            invariant
                self.ids_present(ids@),
                i <= ids@.len(),
                r@ == self.tables_of(ids@).take(i as int),
            decreases ids@.len() - i,
        {
            assert(self.sstables@.contains_key(ids@[i as int]));
            match self.sstables.get(&ids[i]) {
                Some(table) => {
                    r.push(share(table));
                },
                None => {},
            }
            assert(r@ =~= self.tables_of(ids@).take(i + 1));
            i += 1;
        }
        assert(self.tables_of(ids@).take(ids@.len() as int) =~= self.tables_of(ids@));
        r
    }

    /// The value of `key` in the first memtable that holds it.
    fn get_mem(&self, key: &[u8]) -> (r: Option<Vec<u8>>)
        requires
            self.wf(),
        ensures
            option_view(r) == first_some(self.mem_runs(), key@),
    {
        let ghost runs = self.mem_runs();
        match self.memtable.get(key) {
            Some(v) => {
                return Some(v);
            },
            None => {},
        }
        let n = self.imm_memtables.len();
        let mut i: usize = 0;
        assert(runs.skip(1).skip(0) =~= runs.skip(1));
        while i < n
            invariant
                self.wf(),
                runs == self.mem_runs(),
                n == self.imm_memtables@.len(),
                i <= n,
                first_some(runs, key@) == first_some(runs.skip(1 + i), key@),
            decreases n - i,
        {
            assert(self.imm_memtables@[i as int].wf());
            proof {
                lemma_first_some_step(runs, 1 + i, key@);
                assert(runs[1 + i] == self.imm_memtables@[i as int].run());
            }
            match self.imm_memtables[i].get(key) {
                Some(v) => {
                    return Some(v);
                },
                None => {},
            }
            i += 1;
        }
        assert(runs.skip(1 + n) =~= Seq::<Seq<Entry>>::empty());
        None
    }

    /// The value of `key` in the first table of level 0 that holds it.
    fn get_l0(&self, key: &[u8]) -> (r: Option<Vec<u8>>)
        requires
            self.wf(),
        ensures
            option_view(r) == first_some(self.l0_runs(), key@),
    {
        let ghost runs = self.l0_runs();
        let n = self.l0_sstables.len();
        let mut i: usize = 0;
        assert(runs.skip(0) =~= runs);
        while i < n
            invariant
                self.wf(),
                runs == self.l0_runs(),
                n == self.l0_sstables@.len(),
                i <= n,
                first_some(runs, key@) == first_some(runs.skip(i as int), key@),
            decreases n - i,
        {
            proof {
                lemma_first_some_step(runs, i as int, key@);
                assert(self.sstables@.contains_key(self.l0_sstables@[i as int]));
                assert(self.tables_of(self.l0_sstables@)[i as int].wf());
            }
            match self.sstables.get(&self.l0_sstables[i]) {
                Some(table) => {
                    match table_get(table, key) {
                        Some(v) => {
                            return Some(v);
                        },
                        None => {},
                    }
                },
                None => {},
            }
            i += 1;
        }
        assert(runs.skip(n as int) =~= Seq::<Seq<Entry>>::empty());
        None
    }

    /// The value of `key` in the first level below level 0 that holds it.
    fn get_levels(&self, key: &[u8]) -> (r: Option<Vec<u8>>)
        requires
            self.wf(),
        ensures
            option_view(r) == first_some(self.level_runs(), key@),
    {
        let ghost runs = self.level_runs();
        let n = self.levels.len();
        let mut j: usize = 0;
        assert(runs.skip(0) =~= runs);
        while j < n
            invariant
                self.wf(),
                runs == self.level_runs(),
                n == self.levels@.len(),
                j <= n,
                first_some(runs, key@) == first_some(runs.skip(j as int), key@),
            decreases n - j,
        {
            proof {
                lemma_first_some_step(runs, j as int, key@);
                assert(self.ids_present(self.levels@[j as int].1@));
                assert(tables_ordered(self.tables_of(self.levels@[j as int].1@)));
            }
            let tables = self.tables(&self.levels[j].1);
            match tables_get(tables, key) {
                Some(v) => {
                    return Some(v);
                },
                None => {},
            }
            j += 1;
        }
        assert(runs.skip(n as int) =~= Seq::<Seq<Entry>>::empty());
        None
    }

    /// An iterator on each memtable, from the lower bound `lower` on.
    fn mem_iters(&self, lower: &Bound) -> (r: Vec<MemTableIterator>)
        requires
            self.wf(),
        ensures
            r@.len() == self.mem_runs().len(),
            forall|i: int| 0 <= i < r@.len() ==> (#[trigger] r@[i]).wf() && r@[i].remaining() == from_lower(
                self.mem_runs(),
                *lower,
            )[i],
    {
        let ghost runs = self.mem_runs();
        let mut r: Vec<MemTableIterator> = Vec::new();
        let first = MemTableIterator::create(share(&self.memtable), lower, Bound::Unbounded);
        proof {
            lemma_unbounded(runs[0].skip(lower_rank(runs[0], *lower)), Bound::Unbounded);
        }
        r.push(first);
        let n = self.imm_memtables.len();
        let mut i: usize = 0;
        while i < n
            invariant
                self.wf(),
                runs == self.mem_runs(),
                n == self.imm_memtables@.len(),
                i <= n,
                r@.len() == 1 + i,
                forall|j: int| 0 <= j < r@.len() ==> (#[trigger] r@[j]).wf() && r@[j].remaining()
                    == from_lower(runs, *lower)[j],
            decreases n - i,
        {
            assert(self.imm_memtables@[i as int].wf());
            assert(runs[1 + i] == self.imm_memtables@[i as int].run());
            let it = MemTableIterator::create(share(&self.imm_memtables[i]), lower, Bound::Unbounded);
            proof {
                lemma_unbounded(runs[1 + i].skip(lower_rank(runs[1 + i], *lower)), Bound::Unbounded);
            }
            let ghost before = r@;
            r.push(it);
            assert forall|j: int| 0 <= j < r@.len() implies (#[trigger] r@[j]).wf() && r@[j].remaining()
                == from_lower(runs, *lower)[j] by {
                if j < before.len() {
                    assert(r@[j] == before[j]);
                }
            }
            i += 1;
        }
        r
    }

    /// An iterator on each table of level 0, from the lower bound `lower`
    /// on.
    fn l0_iters(&self, lower: &Bound) -> (r: Vec<SsTableIterator>)
        requires
            self.wf(),
        ensures
            r@.len() == self.l0_runs().len(),
            forall|i: int| 0 <= i < r@.len() ==> (#[trigger] r@[i]).wf() && r@[i].remaining() == from_lower(
                self.l0_runs(),
                *lower,
            )[i],
    {
        let ghost runs = self.l0_runs();
        let tables = self.tables(&self.l0_sstables);
        let mut r: Vec<SsTableIterator> = Vec::new();
        let n = tables.len();
        let mut i: usize = 0;
        while i < n
            invariant
                self.wf(),
                runs == self.l0_runs(),
                tables@ == self.tables_of(self.l0_sstables@),
                n == tables@.len(),
                i <= n,
                r@.len() == i,
                forall|j: int| 0 <= j < r@.len() ==> (#[trigger] r@[j]).wf() && r@[j].remaining()
                    == from_lower(runs, *lower)[j],
            decreases n - i,
        {
            assert(self.tables_of(self.l0_sstables@)[i as int].wf());
            assert(runs[i as int] == tables@[i as int].entries());
            let it = SsTableIterator::scan(share(&tables[i]), lower, Bound::Unbounded);
            proof {
                lemma_unbounded(
                    runs[i as int].skip(lower_rank(runs[i as int], *lower)),
                    Bound::Unbounded,
                );
            }
            let ghost before = r@;
            r.push(it);
            assert forall|j: int| 0 <= j < r@.len() implies (#[trigger] r@[j]).wf() && r@[j].remaining()
                == from_lower(runs, *lower)[j] by {
                if j < before.len() {
                    assert(r@[j] == before[j]);
                }
            }
            i += 1;
        }
        r
    }

    /// An iterator on each level below level 0, from the lower bound
    /// `lower` on.
    fn level_iters(&self, lower: &Bound) -> (r: Vec<SstConcatIterator>)
        requires
            self.wf(),
        ensures
            r@.len() == self.level_runs().len(),
            forall|i: int| 0 <= i < r@.len() ==> (#[trigger] r@[i]).wf() && r@[i].remaining() == from_lower(
                self.level_runs(),
                *lower,
            )[i],
    {
        let ghost runs = self.level_runs();
        let mut r: Vec<SstConcatIterator> = Vec::new();
        let n = self.levels.len();
        let mut j: usize = 0;
        while j < n
            invariant
                self.wf(),
                runs == self.level_runs(),
                n == self.levels@.len(),
                j <= n,
                r@.len() == j,
                forall|i: int| 0 <= i < r@.len() ==> (#[trigger] r@[i]).wf() && r@[i].remaining()
                    == from_lower(runs, *lower)[i],
            decreases n - j,
        {
            assert(self.ids_present(self.levels@[j as int].1@));
            assert(tables_ordered(self.tables_of(self.levels@[j as int].1@)));
            let tables = self.tables(&self.levels[j].1);
            let it = SstConcatIterator::create_and_seek_to_lower(tables, lower);
            assert(runs[j as int] == it.all_entries());
            let ghost before = r@;
            r.push(it);
            assert forall|i: int| 0 <= i < r@.len() implies (#[trigger] r@[i]).wf() && r@[i].remaining()
                == from_lower(runs, *lower)[i] by {
                if i < before.len() {
                    assert(r@[i] == before[i]);
                }
            }
            j += 1;
        }
        r
    }

    /// The value of `key`: that of the newest layer that holds the key,
    /// and none where that value is a tombstone.
    pub fn get(&self, key: &[u8]) -> (r: Option<Vec<u8>>)
        requires
            self.wf(),
        ensures
            option_view(r) == self.get_spec(key@),
    {
        proof {
            lemma_first_some_concat(self.mem_runs() + self.l0_runs(), self.level_runs(), key@);
            lemma_first_some_concat(self.mem_runs(), self.l0_runs(), key@);
        }
        let found = match self.get_mem(key) {
            Some(v) => Some(v),
            None => match self.get_l0(key) {
                Some(v) => Some(v),
                None => self.get_levels(key),
            },
        };
        match found {
            Some(v) => if v.len() > 0 {
                Some(v)
            } else {
                None
            },
            None => None,
        }
    }

    /// A copy of the state, which shares its memtables and tables.
    pub fn duplicate(&self) -> (r: Self)
        ensures
            r.memtable == self.memtable,
            r.imm_memtables@ == self.imm_memtables@,
            r.l0_sstables@ == self.l0_sstables@,
            levels_view(r.levels@) == levels_view(self.levels@),
            r.sstables@ == self.sstables@,
    {
        let mut imm: Vec<Arc<MemTable>> = Vec::new();
        let mut i: usize = 0;
        while i < self.imm_memtables.len()
            invariant
                i <= self.imm_memtables@.len(),
                imm@ == self.imm_memtables@.take(i as int),
            decreases self.imm_memtables@.len() - i,
        {
            imm.push(share(&self.imm_memtables[i]));
            assert(imm@ =~= self.imm_memtables@.take(i + 1));
            i += 1;
        }
        assert(self.imm_memtables@.take(self.imm_memtables@.len() as int) =~= self.imm_memtables@);
        Self {
            memtable: share(&self.memtable),
            imm_memtables: imm,
            l0_sstables: copy_ids(&self.l0_sstables),
            levels: copy_levels(&self.levels),
            sstables: self.sstables.clone(),
        }
    }
}

/// The levels 1 to `max_levels`, and at least level 1, without tables.
fn empty_levels(max_levels: usize) -> (levels: Vec<(usize, Vec<usize>)>)
    ensures
        levels@.len() >= 1,
        levels@.len() == if max_levels == 0 {
            1
        } else {
            max_levels as int
        },
        forall|j: int|
            0 <= j < levels@.len() ==> (#[trigger] levels@[j]).1@.len() == 0 && levels@[j].0 == j + 1,
{
    let mut levels: Vec<(usize, Vec<usize>)> = Vec::new();
    let mut level: usize = 1;
    levels.push((level, Vec::new()));
    while level < max_levels
        invariant
            levels@.len() == level,
            1 <= level,
            level <= max_levels || level == 1,
            forall|j: int|
                0 <= j < levels@.len() ==> (#[trigger] levels@[j]).1@.len() == 0 && levels@[j].0
                    == j + 1,
        decreases max_levels - level,
    {
        level += 1;
        levels.push((level, Vec::new()));
    }
    levels
}

/// The options of the store.
#[derive(Debug, Clone, Copy, PartialEq, Eq, Structural)]
pub struct LsmStorageOptions {
    /// The target size of a block, in bytes.
    pub block_size: usize,
    /// The size at which a memtable is frozen and a compaction begins a new
    /// table, in bytes.
    pub target_sst_size: usize,
    /// The number of memtables above which a frozen memtable is flushed.
    pub num_memtable_limit: usize,
    /// How the store is compacted.
    pub compaction_options: CompactionOptions,
}

impl LsmStorageOptions {
    /// The options can be used: blocks are small enough for their format.
    pub open spec fn usable(&self) -> bool {
        self.block_size <= MAX_BLOCK_SIZE
    }

    /// Whether the options can be used.
    pub fn is_usable(&self) -> (r: bool)
        ensures
            r == self.usable(),
    {
        self.block_size <= MAX_BLOCK_SIZE
    }
}

/// The store: its state, its options and the controller of its compaction.
///
/// Every method takes the store by reference; sharing the store among
/// threads, and the locks that this takes, are left to the caller.
pub struct LsmStorageInner {
    /// The state of the store.
    pub(crate) state: LsmStorageState,
    /// The options of the store.
    pub(crate) options: LsmStorageOptions,
    /// The controller of the compaction.
    pub(crate) compaction_controller: CompactionController,
    /// The id that the next memtable or table gets.
    pub(crate) next_sst_id: usize,
}

impl LsmStorageInner {
    /// The state of the store.
    pub open(crate) spec fn state_spec(&self) -> LsmStorageState {
        self.state
    }

    /// The options of the store.
    pub open(crate) spec fn options_spec(&self) -> LsmStorageOptions {
        self.options
    }

    /// The controller of the compaction.
    pub open(crate) spec fn controller_spec(&self) -> CompactionController {
        self.compaction_controller
    }

    /// The id that the next memtable or table gets.
    pub open(crate) spec fn next_id(&self) -> usize {
        self.next_sst_id
    }

    /// What a reader gets for the key `k`.
    pub open(crate) spec fn get_spec(&self, k: Seq<u8>) -> Option<Seq<u8>> {
        self.state.get_spec(k)
    }

    /// The store's invariant: the state is well-formed, the options can be
    /// used, and every id in use is below the next id.
    pub open(crate) spec fn wf(&self) -> bool {
        &&& self.state.wf()
        &&& self.options.usable()
        &&& self.compaction_controller is Tiered ==> self.state.l0_sstables@.len() == 0
        &&& !(self.compaction_controller is Tiered) ==> self.state.levels@.len() >= 1
        &&& self.compaction_controller.made_for(self.options.compaction_options)
        &&& forall|id: usize| self.state.sstables@.contains_key(id) ==> id < self.next_sst_id
    }

    /// The number of levels of a new store: with leveled and simple
    /// leveled compaction as many as the options name, and at least one;
    /// with tiered compaction none; without compaction one.
    pub open spec fn first_levels(options: CompactionOptions) -> int {
        match options {
            CompactionOptions::Leveled(o) => if o.max_levels == 0 {
                1
            } else {
                o.max_levels as int
            },
            CompactionOptions::Simple(o) => if o.max_levels == 0 {
                1
            } else {
                o.max_levels as int
            },
            CompactionOptions::Tiered(_) => 0,
            CompactionOptions::NoCompaction => 1,
        }
    }

    /// Opens an empty store: its memtable has the id 0 and the next id is
    /// 1; it has the controller that the options ask for, and its levels,
    /// numbered from 1, hold no table.
    pub fn open(options: LsmStorageOptions) -> (r: Self)
        requires
            options.usable(),
        ensures
            r.wf(),
            r.options_spec() == options,
            r.controller_spec().made_for(options.compaction_options),
            r.next_id() == 1,
            r.state_spec().memtable.run().len() == 0,
            r.state_spec().memtable.id_spec() == 0,
            r.state_spec().imm_memtables@.len() == 0,
            r.state_spec().l0_sstables@.len() == 0,
            r.state_spec().sstables@ == Map::<usize, Arc<SsTable>>::empty(),
            r.state_spec().levels@.len() == Self::first_levels(options.compaction_options),
            forall|j: int|
                0 <= j < r.state_spec().levels@.len() ==> (#[trigger] r.state_spec().levels@[j]).0
                    == j + 1 && r.state_spec().levels@[j].1@.len() == 0,
            forall|k: Seq<u8>| r.get_spec(k) is None,
    {
        let mut levels: Vec<(usize, Vec<usize>)> = Vec::new();
        let compaction_controller = match options.compaction_options {
            CompactionOptions::Leveled(o) => {
                levels = empty_levels(o.max_levels);
                CompactionController::Leveled(LeveledCompactionController::new(o))
            },
            CompactionOptions::Simple(o) => {
                levels = empty_levels(o.max_levels);
                CompactionController::Simple(SimpleLeveledCompactionController::new(o))
            },
            CompactionOptions::Tiered(o) => CompactionController::Tiered(
                TieredCompactionController::new(o),
            ),
            CompactionOptions::NoCompaction => {
                levels.push((1, Vec::new()));
                CompactionController::NoCompaction
            },
        };
        let state = LsmStorageState {
            memtable: Arc::new(MemTable::create(0)),
            imm_memtables: Vec::new(),
            l0_sstables: Vec::new(),
            levels,
            sstables: HashMap::new(),
        };
        let r = Self { state, options, compaction_controller, next_sst_id: 1 };
        proof {
            r.state.lemma_empty();
        }
        r
    }

    /// A copy of the store, which shares its memtables and tables: a
    /// snapshot to work on while the store goes on.
    pub fn duplicate(&self) -> (r: Self)
        requires
            self.wf(),
        ensures
            r.wf(),
            r.options_spec() == self.options_spec(),
            r.next_id() == self.next_id(),
            r.state_spec().memtable == self.state_spec().memtable,
            r.state_spec().imm_memtables@ == self.state_spec().imm_memtables@,
            r.state_spec().same_tables(self.state_spec()),
            forall|k: Seq<u8>| #[trigger] r.get_spec(k) == self.get_spec(k),
    {
        let compaction_controller = match self.options.compaction_options {
            CompactionOptions::Leveled(o) => CompactionController::Leveled(
                LeveledCompactionController::new(o),
            ),
            CompactionOptions::Simple(o) => CompactionController::Simple(
                SimpleLeveledCompactionController::new(o),
            ),
            CompactionOptions::Tiered(o) => CompactionController::Tiered(
                TieredCompactionController::new(o),
            ),
            CompactionOptions::NoCompaction => CompactionController::NoCompaction,
        };
        let r = Self {
            state: self.state.duplicate(),
            options: self.options,
            compaction_controller,
            next_sst_id: self.next_sst_id,
        };
        proof {
            self.state.lemma_same_parts(r.state);
            assert(r.state.mem_runs() =~= self.state.mem_runs());
        }
        r
    }

    /// The id that the next memtable or table gets.
    pub fn next_sst_id(&self) -> (id: usize)
        ensures
            id == self.next_id(),
    {
        self.next_sst_id
    }

    /// The controller of the compaction.
    pub fn compaction_controller(&self) -> (c: &CompactionController)
        ensures
            *c == self.controller_spec(),
    {
        &self.compaction_controller
    }

    /// The state of the store.
    pub fn state(&self) -> (s: &LsmStorageState)
        ensures
            *s == self.state_spec(),
    {
        &self.state
    }

    /// The options of the store.
    pub fn options(&self) -> (o: &LsmStorageOptions)
        ensures
            *o == self.options_spec(),
    {
        &self.options
    }

    /// The value of `key`, if the store holds one.
    pub fn get(&self, key: &[u8]) -> (r: Option<Vec<u8>>)
        requires
            self.wf(),
        ensures
            option_view(r) == self.get_spec(key@),
    {
        self.state.get(key)
    }

    /// The entries of the store between `lower` and `upper` that are no
    /// tombstones, in key order, each key with the value of the newest
    /// layer that holds it.
    pub fn scan(&self, lower: &Bound, upper: Bound) -> (r: Result<
        FusedIterator<LsmIterator>,
        Error,
    >)
        requires
            self.wf(),
        ensures
            r matches Ok(it) && it.wf() && !it.errored() && it.remaining() == self.scan_spec(
                *lower,
                upper,
            ),
    {
        let ghost state = self.state;
        proof {
            state.lemma_layers();
            lemma_scan_tree(state.mem_runs(), state.l0_runs(), state.level_runs(), *lower);
        }
        let mem = MergeIterator::create(self.state.mem_iters(lower));
        let l0 = MergeIterator::create(self.state.l0_iters(lower));
        let levels = MergeIterator::create(self.state.level_iters(lower));
        proof {
            assert(mem.sources() =~= from_lower(state.mem_runs(), *lower));
            assert(l0.sources() =~= from_lower(state.l0_runs(), *lower));
            assert(levels.sources() =~= from_lower(state.level_runs(), *lower));
        }
        let inner = TwoMergeIterator::create(TwoMergeIterator::create(mem, l0), levels);
        match LsmIterator::new(inner, upper) {
            Ok(it) => Ok(FusedIterator::new(it)),
            Err(e) => Err(e),
        }
    }

    /// What a scan between `lower` and `upper` walks.
    pub open(crate) spec fn scan_spec(&self, lower: Bound, upper: Bound) -> Seq<Entry> {
        live(
            bounded(
                merge_all(self.state.layers()).skip(
                    lower_rank(merge_all(self.state.layers()), lower),
                ),
                upper,
            ),
        )
    }

    /// What a scan walks is a run, in which every key within the two bounds
    /// has the value that a reader gets for it, and no other key occurs:
    /// the keys of a scan ascend, and each comes with its newest value.
    pub proof fn lemma_scan(&self, lower: Bound, upper: Bound, k: Seq<u8>)
        requires
            self.wf(),
        ensures
            is_run(self.scan_spec(lower, upper)),
            lookup(self.scan_spec(lower, upper), k) == if lower.admits_above(k)
                && upper.admits_below(k) {
                self.get_spec(k)
            } else {
                None
            },
    {
        let layers = self.state.layers();
        let m = merge_all(layers);
        let from = m.skip(lower_rank(m, lower));
        self.state.lemma_layers();
        crate::iterators::lemma_merge_all(layers);
        crate::iterators::lemma_lookup_from_lower(m, lower, k);
        crate::iterators::lemma_bounded(from, upper);
        crate::iterators::lemma_lookup_bounded(from, upper, k);
        crate::iterators::lemma_live(bounded(from, upper));
    }

    /// Whether a put of the value for the key freezes the memtable: it does
    /// where the bytes of all keys and values put into the memtable, with
    /// those of this put, reach the target size of a table, and an id is
    /// left for a new memtable.
    pub open(crate) spec fn freezes_on(&self, key: Seq<u8>, value: Seq<u8>) -> bool {
        &&& self.state.memtable.size_spec() + key.len() + value.len()
            >= self.options.target_sst_size
        &&& self.next_sst_id < usize::MAX
    }

    /// Puts a value for a key: `InvalidEntry` for an empty key, or a key or
    /// value too long for the table format. A reader then gets the value
    /// for the key, and for every other key what it got before. A memtable
    /// that has reached the target size is frozen.
    pub fn put(&mut self, key: &[u8], value: &[u8]) -> (r: Result<(), Error>)
        requires
            old(self).wf(),
        ensures
            final(self).wf(),
            final(self).options_spec() == old(self).options_spec(),
            r is Ok <==> entry_storable((key@, value@)),
            r is Ok ==> forall|k: Seq<u8>|
                #[trigger] final(self).get_spec(k) == if k == key@ {
                    visible(Some(value@))
                } else {
                    old(self).get_spec(k)
                },
            r is Ok ==> if old(self).freezes_on(key@, value@) {
                &&& final(self).state_spec().memtable.run().len() == 0
                &&& final(self).state_spec().imm_memtables@.len() == old(self).state_spec().imm_memtables@.len() + 1
                &&& final(self).state_spec().imm_memtables@[0].run() == upsert(
                    old(self).state_spec().memtable.run(),
                    key@,
                    value@,
                )
            } else {
                &&& final(self).state_spec().memtable.run() == upsert(
                    old(self).state_spec().memtable.run(),
                    key@,
                    value@,
                )
                &&& final(self).state_spec().imm_memtables@ == old(self).state_spec().imm_memtables@
            },
            r matches Err(e) ==> e == Error::InvalidEntry && forall|k: Seq<u8>|
                #[trigger] final(self).get_spec(k) == old(self).get_spec(k),
    {
        let ghost before = self.state;
        let mut taken = Arc::new(MemTable::create(0));
        std::mem::swap(&mut self.state.memtable, &mut taken);
        let mut table = match unwrap_or_keep(taken) {
            Ok(table) => table,
            Err(shared) => shared.duplicate(),
        };
        let r = table.put(key, value);
        proof {
            before.memtable.lemma_run();
            if r is Ok {
                lemma_upsert(before.memtable.run(), key@, value@);
            }
        }
        self.state.memtable = Arc::new(table);
        proof {
            before.lemma_with_memtable(self.state);
        }
        if r.is_ok() && self.state.memtable.approximate_size() >= self.options.target_sst_size {
            self.force_freeze_memtable();
        }
        r
    }

    /// Deletes a key: puts a tombstone for it.
    pub fn delete(&mut self, key: &[u8]) -> (r: Result<(), Error>)
        requires
            old(self).wf(),
        ensures
            final(self).wf(),
            final(self).options_spec() == old(self).options_spec(),
            r is Ok <==> 0 < key@.len() <= u16::MAX,
            r is Ok ==> forall|k: Seq<u8>|
                #[trigger] final(self).get_spec(k) == if k == key@ {
                    None
                } else {
                    old(self).get_spec(k)
                },
            r matches Err(e) ==> e == Error::InvalidEntry && forall|k: Seq<u8>|
                #[trigger] final(self).get_spec(k) == old(self).get_spec(k),
    {
        let empty: &[u8] = &[];
        self.put(key, empty)
    }

    /// Whether the oldest frozen memtable can be flushed: none is frozen, or
    /// it is empty, or an id is left for its table and the offsets of the
    /// table fit the file format.
    pub open(crate) spec fn flushable(&self) -> bool {
        let frozen = self.state.imm_memtables@;
        frozen.len() == 0 || frozen.last().run().len() == 0 || (self.next_sst_id < usize::MAX
            && filter_start(frozen.last().run(), self.options.block_size as int) <= u32::MAX)
    }

    /// Flushes the oldest frozen memtable: it becomes the newest table of
    /// level 0, or with tiered compaction a tier of its own above the
    /// others. An empty memtable leaves without a table. It is `TooLarge`
    /// where no id is left for the table or the table would exceed the file
    /// format; nothing has changed then. Where no memtable is frozen,
    /// nothing is done. A reader gets what it got before.
    #[verifier::rlimit(40)]
    pub fn force_flush_next_imm_memtable(&mut self) -> (r: Result<(), Error>)
        requires
            old(self).wf(),
        ensures
            final(self).wf(),
            final(self).options_spec() == old(self).options_spec(),
            forall|k: Seq<u8>| #[trigger] final(self).get_spec(k) == old(self).get_spec(k),
            r is Ok <==> old(self).flushable(),
            r matches Err(e) ==> e == Error::TooLarge && final(self).state_spec() == old(self).state_spec(),
            r is Ok ==> final(self).controller_spec() == old(self).controller_spec(),
            r is Ok && old(self).state_spec().imm_memtables@.len() == 0 ==> final(self).state_spec()
                == old(self).state_spec() && final(self).next_id() == old(self).next_id(),
            r is Ok && old(self).state_spec().imm_memtables@.len() > 0 ==> if old(self).state_spec().imm_memtables@.last().run().len() == 0 {
                &&& final(self).state_spec().memtable == old(self).state_spec().memtable
                &&& final(self).state_spec().imm_memtables@ == old(self).state_spec().imm_memtables@.drop_last()
                &&& final(self).state_spec().l0_sstables == old(self).state_spec().l0_sstables
                &&& final(self).state_spec().levels == old(self).state_spec().levels
                &&& final(self).state_spec().sstables == old(self).state_spec().sstables
                &&& final(self).next_id() == old(self).next_id()
            } else {
                &&& old(self).state_spec().flushed_to(
                    final(self).state_spec(),
                    old(self).next_id(),
                    old(self).options_spec().block_size as int,
                    !(old(self).controller_spec() is Tiered),
                )
                &&& final(self).next_id() == old(self).next_id() + 1
            },
    {
        match self.write_frozen() {
            Ok(Some((_, table))) => {
                self.put_flushed(table);
                Ok(())
            },
            Ok(None) => Ok(()),
            Err(e) => Err(e),
        }
    }

    /// Writes the table of the oldest frozen memtable, and leaves the
    /// state as it is: the first half of a flush. The result holds the
    /// memtable and its table, which has the next id; an empty memtable has
    /// no table, and where no memtable is frozen there is nothing. It is
    /// `TooLarge` where no id is left for the table or the table would
    /// exceed the file format.
    pub fn write_frozen(&mut self) -> (r: Result<Option<(Arc<MemTable>, Option<Arc<SsTable>>)>, Error>)
        requires
            old(self).wf(),
        ensures
            final(self).wf(),
            final(self).options_spec() == old(self).options_spec(),
            final(self).controller_spec() == old(self).controller_spec(),
            final(self).state_spec() == old(self).state_spec(),
            r is Ok <==> old(self).flushable(),
            r matches Err(e) ==> e == Error::TooLarge && final(self).next_id() == old(self).next_id(),
            r matches Ok(found) ==> match found {
                None => old(self).state_spec().imm_memtables@.len() == 0 && final(self).next_id()
                    == old(self).next_id(),
                Some((memtable, table)) => {
                    &&& old(self).state_spec().imm_memtables@.len() > 0
                    &&& memtable == old(self).state_spec().imm_memtables@.last()
                    &&& old(self).written(memtable, table)
                    &&& final(self).next_id() == old(self).next_id() + if table is Some {
                        1int
                    } else {
                        0int
                    }
                },
            },
    {
        let n = self.state.imm_memtables.len();
        if n == 0 {
            return Ok(None);
        }
        assert(self.state.imm_memtables@[n - 1].wf());
        let memtable = share(&self.state.imm_memtables[n - 1]);
        if memtable.is_empty() {
            return Ok(Some((memtable, None)));
        }
        if self.next_sst_id == usize::MAX {
            return Err(Error::TooLarge);
        }
        let id = self.next_sst_id;
        let mut builder = SsTableBuilder::new(self.options.block_size);
        memtable.flush(&mut builder);
        let table = match builder.build(id) {
            Ok(table) => Arc::new(table),
            Err(e) => {
                return Err(e);
            },
        };
        self.next_sst_id = id + 1;
        Ok(Some((memtable, Some(table))))
    }

    /// Whether `table` is what a flush of `memtable` writes in this store:
    /// no table for an empty memtable, and else a table with the next id
    /// that holds the entries of the memtable in blocks of the target size
    /// of the options.
    pub open(crate) spec fn written(&self, memtable: Arc<MemTable>, table: Option<Arc<SsTable>>) -> bool {
        match table {
            None => memtable.run().len() == 0,
            Some(t) => {
                &&& memtable.run().len() > 0
                &&& t.wf()
                &&& t.id_spec() == self.next_sst_id
                &&& t.entries() == memtable.run()
                &&& t.runs() == blocks_of(memtable.run(), self.options.block_size as int)
            },
        }
    }

    /// Takes the oldest frozen memtable out of the state and puts its
    /// table, if it has one, in its place: as the newest table of level 0,
    /// or with tiered compaction as a tier of its own above the others.
    fn put_flushed(&mut self, table: Option<Arc<SsTable>>)
        requires
            old(self).wf(),
            old(self).state.imm_memtables@.len() > 0,
            match table {
                None => old(self).state.imm_memtables@.last().run().len() == 0,
                Some(t) => {
                    &&& t.wf()
                    &&& t.entries() == old(self).state.imm_memtables@.last().run()
                    &&& t.entries().len() > 0
                    &&& !old(self).state.sstables@.contains_key(t.id_spec())
                    &&& t.id_spec() < old(self).next_sst_id
                },
            },
        ensures
            final(self).wf(),
            final(self).options == old(self).options,
            final(self).compaction_controller == old(self).compaction_controller,
            final(self).next_sst_id == old(self).next_sst_id,
            forall|k: Seq<u8>| #[trigger] final(self).get_spec(k) == old(self).get_spec(k),
            final(self).state.memtable == old(self).state.memtable,
            final(self).state.imm_memtables@ == old(self).state.imm_memtables@.drop_last(),
            match table {
                None => final(self).state.l0_sstables == old(self).state.l0_sstables
                    && final(self).state.levels == old(self).state.levels && final(self).state.sstables
                    == old(self).state.sstables,
                Some(t) => {
                    &&& final(self).state.sstables@ == old(self).state.sstables@.insert(
                        t.id_spec(),
                        t,
                    )
                    &&& if old(self).compaction_controller is Tiered {
                        final(self).state.l0_sstables@ == old(self).state.l0_sstables@
                            && levels_view(final(self).state.levels@) == seq![
                            (t.id_spec(), seq![t.id_spec()]),
                        ] + levels_view(old(self).state.levels@)
                    } else {
                        final(self).state.l0_sstables@ == seq![t.id_spec()] + old(self).state.l0_sstables@ && levels_view(final(self).state.levels@)
                            == levels_view(old(self).state.levels@)
                    }
                },
            },
    {
        let ghost before = self.state;
        match table {
            None => {
                self.state.imm_memtables.pop();
                proof {
                    before.lemma_dropped(self.state);
                }
            },
            Some(table) => {
                let id = table.sst_id();
                self.state.imm_memtables.pop();
                let to_l0 = self.compaction_controller.flush_to_l0();
                if to_l0 {
                    self.state.l0_sstables.insert(0, id);
                    assert(self.state.l0_sstables@ =~= seq![id] + before.l0_sstables@);
                } else {
                    let mut ids: Vec<usize> = Vec::new();
                    ids.push(id);
                    self.state.levels.insert(0, (id, ids));
                    assert(levels_view(self.state.levels@) =~= seq![(id, seq![id])] + levels_view(
                        before.levels@,
                    ));
                }
                self.state.sstables.insert(id, share(&table));
                proof {
                    before.lemma_flushed(self.state, id, table, to_l0);
                    assert(self.state.sstables@[id] == table);
                }
            },
        }
    }

    /// Puts the table that was written for the frozen memtable `memtable`
    /// on a copy of this store in the place of the memtable: the second
    /// half of a flush. The memtable must still be the oldest frozen
    /// memtable of this store, and the id of the table new to it. Else it
    /// is `Stale`, and nothing has changed.
    pub fn install_flush(&mut self, memtable: &Arc<MemTable>, table: Option<Arc<SsTable>>) -> (r:
        Result<(), Error>)
        requires
            old(self).wf(),
            match table {
                None => memtable.run().len() == 0,
                Some(t) => t.wf() && t.entries() == memtable.run() && t.entries().len() > 0,
            },
        ensures
            final(self).wf(),
            final(self).options_spec() == old(self).options_spec(),
            final(self).controller_spec() == old(self).controller_spec(),
            forall|k: Seq<u8>| #[trigger] final(self).get_spec(k) == old(self).get_spec(k),
            final(self).state_spec().memtable == old(self).state_spec().memtable,
            r matches Err(e) ==> e == Error::Stale && final(self).state_spec() == old(self).state_spec()
                && final(self).next_id() == old(self).next_id(),
            old(self).state_spec().imm_memtables@.len() == 0 ==> r is Err,
            table matches Some(t) && (old(self).state_spec().sstables@.contains_key(t.id_spec())
                || t.id_spec() == usize::MAX) ==> r is Err,
            r is Ok ==> {
                &&& old(self).state_spec().imm_memtables@.len() > 0
                &&& old(self).state_spec().imm_memtables@.last() == *memtable
                &&& final(self).state_spec().imm_memtables@ == old(self).state_spec().imm_memtables@.drop_last()
                &&& match table {
                    None => final(self).state_spec().l0_sstables == old(self).state_spec().l0_sstables
                        && final(self).state_spec().levels == old(self).state_spec().levels
                        && final(self).state_spec().sstables == old(self).state_spec().sstables
                        && final(self).next_id() == old(self).next_id(),
                    Some(t) => {
                        &&& final(self).state_spec().sstables@ == old(self).state_spec().sstables@.insert(t.id_spec(), t)
                        &&& final(self).next_id() == if old(self).next_id() > t.id_spec() {
                            old(self).next_id() as int
                        } else {
                            t.id_spec() + 1
                        }
                        &&& if old(self).controller_spec() is Tiered {
                            final(self).state_spec().l0_sstables@ == old(self).state_spec().l0_sstables@ && levels_view(
                                final(self).state_spec().levels@,
                            ) == seq![(t.id_spec(), seq![t.id_spec()])] + levels_view(
                                old(self).state_spec().levels@,
                            )
                        } else {
                            final(self).state_spec().l0_sstables@ == seq![t.id_spec()] + old(self).state_spec().l0_sstables@ && levels_view(
                                final(self).state_spec().levels@,
                            ) == levels_view(old(self).state_spec().levels@)
                        }
                    },
                }
            },
    {
        let n = self.state.imm_memtables.len();
        if n == 0 {
            return Err(Error::Stale);
        }
        if !same_handle(&self.state.imm_memtables[n - 1], memtable) {
            return Err(Error::Stale);
        }
        match &table {
            Some(t) => {
                let id = t.sst_id();
                if id == usize::MAX || self.state.sstables.contains_key(&id) {
                    return Err(Error::Stale);
                }
                if self.next_sst_id <= id {
                    self.next_sst_id = id + 1;
                }
            },
            None => {},
        }
        self.put_flushed(table);
        Ok(())
    }

    /// Flushes the oldest frozen memtable where the memtables are more
    /// than the options allow.
    pub fn trigger_flush(&mut self) -> (r: Result<(), Error>)
        requires
            old(self).wf(),
        ensures
            final(self).wf(),
            final(self).options_spec() == old(self).options_spec(),
            forall|k: Seq<u8>| #[trigger] final(self).get_spec(k) == old(self).get_spec(k),
            old(self).state_spec().imm_memtables@.len() + 1 <= old(self).options_spec().num_memtable_limit ==> r is Ok && final(self).state_spec() == old(self).state_spec(),
            old(self).state_spec().imm_memtables@.len() + 1 > old(self).options_spec().num_memtable_limit ==> (r is Ok <==> old(self).flushable()),
            r matches Err(e) ==> e == Error::TooLarge && final(self).state_spec() == old(self).state_spec(),
            r is Ok && old(self).state_spec().imm_memtables@.len() > 0 && old(self).state_spec().imm_memtables@.len() + 1 > old(self).options_spec().num_memtable_limit ==> if old(self).state_spec().imm_memtables@.last().run().len() == 0 {
                &&& final(self).state_spec().memtable == old(self).state_spec().memtable
                &&& final(self).state_spec().imm_memtables@ == old(self).state_spec().imm_memtables@.drop_last()
                &&& final(self).state_spec().l0_sstables == old(self).state_spec().l0_sstables
                &&& final(self).state_spec().levels == old(self).state_spec().levels
                &&& final(self).state_spec().sstables == old(self).state_spec().sstables
            } else {
                old(self).state_spec().flushed_to(
                    final(self).state_spec(),
                    old(self).next_id(),
                    old(self).options_spec().block_size as int,
                    !(old(self).controller_spec() is Tiered),
                )
            },
    {
        let count = self.state.imm_memtables.len();
        if count >= self.options.num_memtable_limit {
            self.force_flush_next_imm_memtable()
        } else {
            Ok(())
        }
    }

    /// Installs new lists of ids together with the new tables `outputs`,
    /// and closes every table among `candidates` that no list names any
    /// more. The result holds the ids of the tables that were closed.
    pub(crate) fn install(
        &mut self,
        l0: Vec<usize>,
        levels: Vec<(usize, Vec<usize>)>,
        outputs: &Vec<Arc<SsTable>>,
        candidates: &Vec<usize>,
        Ghost(first): Ghost<int>,
    ) -> (removed: Vec<usize>)
        requires
            old(self).wf(),
            ids_from(outputs@, first),
            forall|id: usize| old(self).state.sstables@.contains_key(id) ==> id < first,
            first + outputs@.len() <= old(self).next_sst_id,
            old(self).compaction_controller is Tiered ==> l0@.len() == 0,
            !(old(self).compaction_controller is Tiered) ==> levels@.len() >= 1,
            lists_ok(l0@, levels_view(levels@), add_tables(old(self).state.sstables@, outputs@)),
            forall|i: int|
                0 <= i < outputs@.len() ==> (l0@ + all_ids(levels_view(levels@))).contains(
                    (#[trigger] outputs@[i]).id_spec(),
                ),
            forall|id: usize|
                old(self).state.sstables@.contains_key(id) && !candidates@.contains(id) ==> (l0@
                    + all_ids(levels_view(levels@))).contains(id),
        ensures
            final(self).wf(),
            final(self).options == old(self).options,
            final(self).next_sst_id == old(self).next_sst_id,
            final(self).compaction_controller == old(self).compaction_controller,
            final(self).state.memtable == old(self).state.memtable,
            final(self).state.imm_memtables == old(self).state.imm_memtables,
            final(self).state.l0_sstables == l0,
            final(self).state.levels == levels,
            forall|id: usize|
                #[trigger] final(self).state.table_ids().contains(id) ==> final(self).state.sstables@.contains_key(id) && final(self).state.sstables@[id] == add_tables(
                    old(self).state.sstables@,
                    outputs@,
                )[id],
            forall|i: int|
                0 <= i < removed@.len() ==> candidates@.contains(#[trigger] removed@[i]) && !final(self).state.table_ids().contains(removed@[i]),
    {
        let ghost before = self.state;
        let ghost goal = add_tables(before.sstables@, outputs@);
        proof {
            before.lemma_wf();
            lemma_add_tables(before.sstables@, outputs@, first);
        }
        let mut i: usize = 0;
        assert(outputs@.take(0) =~= Seq::<Arc<SsTable>>::empty());
        while i < outputs.len()
            invariant
                i <= outputs@.len(),
                self.state.memtable == before.memtable,
                self.state.imm_memtables == before.imm_memtables,
                self.state.l0_sstables == before.l0_sstables,
                self.state.levels == before.levels,
                self.options == old(self).options,
                self.next_sst_id == old(self).next_sst_id,
                self.compaction_controller == old(self).compaction_controller,
                self.state.sstables@ == add_tables(before.sstables@, outputs@.take(i as int)),
            decreases outputs@.len() - i,
        {
            assert(outputs@.take(i + 1).drop_last() =~= outputs@.take(i as int));
            self.state.sstables.insert(outputs[i].sst_id(), share(&outputs[i]));
            i += 1;
        }
        assert(outputs@.take(outputs@.len() as int) =~= outputs@);
        self.state.l0_sstables = l0;
        self.state.levels = levels;
        let ghost ids = self.state.table_ids();
        let mut removed: Vec<usize> = Vec::new();
        let mut c: usize = 0;
        while c < candidates.len()
            invariant
                c <= candidates@.len(),
                self.state.memtable == before.memtable,
                self.state.imm_memtables == before.imm_memtables,
                self.state.l0_sstables == l0,
                self.state.levels == levels,
                self.options == old(self).options,
                self.next_sst_id == old(self).next_sst_id,
                self.compaction_controller == old(self).compaction_controller,
                ids == self.state.table_ids(),
                forall|id: usize|
                    #[trigger] self.state.sstables@.contains_key(id) ==> goal.contains_key(id)
                        && self.state.sstables@[id] == goal[id],
                forall|id: usize|
                    goal.contains_key(id) && ids.contains(id)
                        ==> #[trigger] self.state.sstables@.contains_key(id),
                forall|x: int|
                    0 <= x < c && !ids.contains(candidates@[x])
                        ==> !self.state.sstables@.contains_key(#[trigger] candidates@[x]),
                forall|x: int|
                    0 <= x < removed@.len() ==> candidates@.contains(#[trigger] removed@[x])
                        && !ids.contains(removed@[x]),
            decreases candidates@.len() - c,
        {
            let id = candidates[c];
            if !self.state.names(id) {
                self.state.sstables.remove(&id);
                let ghost gone = removed@;
                removed.push(id);
                assert forall|x: int| 0 <= x < removed@.len() implies candidates@.contains(
                    #[trigger] removed@[x],
                ) && !ids.contains(removed@[x]) by {
                    if x < gone.len() {
                        assert(removed@[x] == gone[x]);
                    }
                }
            }
            c += 1;
        }
        proof {
            let after = self.state;
            let tiers = levels_view(levels@);
            after.lemma_wf();
            assert forall|id: usize| ids.contains(id) implies #[trigger] goal.contains_key(id) by {
                let at = choose|at: int| 0 <= at < ids.len() && ids[at] == id;
                let n0 = l0@.len() as int;
                if at < n0 {
                    assert(l0@[at] == id);
                } else {
                    lemma_all_ids_source(tiers, at - n0);
                    let (x, y) = choose|x: int, y: int|
                        0 <= x < tiers.len() && 0 <= y < tiers[x].1.len() && all_ids(tiers)[at - n0]
                            == #[trigger] tiers[x].1[y];
                    assert(present(goal, tiers[x].1));
                }
            }
            // The lists resolve in the map that is left as in the goal.
            assert forall|list: Seq<usize>|
                present(goal, list) && (forall|y: int|
                    0 <= y < list.len() ==> ids.contains(#[trigger] list[y])) implies #[trigger] resolve(
                after.sstables@,
                list,
            ) == resolve(goal, list) && present(after.sstables@, list) by {
                assert forall|y: int| 0 <= y < list.len() implies after.sstables@.contains_key(
                    #[trigger] list[y],
                ) && after.sstables@[list[y]] == goal[list[y]] by {
                    assert(ids.contains(list[y]));
                    assert(goal.contains_key(list[y]));
                }
                assert(resolve(after.sstables@, list) =~= resolve(goal, list));
            }
            after.lemma_table_ids();
            assert(present(goal, l0@));
            assert(resolve(after.sstables@, l0@) == resolve(goal, l0@));
            assert forall|j: int| 0 <= j < tiers.len() implies present(
                after.sstables@,
                (#[trigger] tiers[j]).1,
            ) && tables_ordered(resolve(after.sstables@, tiers[j].1)) by {
                assert(present(goal, tiers[j].1));
                assert forall|y: int| 0 <= y < tiers[j].1.len() implies ids.contains(
                    #[trigger] tiers[j].1[y],
                ) by {
                    assert(tiers[j].1[y] == levels@[j].1@[y]);
                }
                assert(resolve(after.sstables@, tiers[j].1) == resolve(goal, tiers[j].1));
            }
            assert forall|id: usize| after.sstables@.contains_key(id) implies ids.contains(id) by {
                assert(goal.contains_key(id));
                if before.sstables@.contains_key(id) {
                    if candidates@.contains(id) {
                        let x = choose|x: int| 0 <= x < candidates@.len() && candidates@[x] == id;
                        assert(after.sstables@.contains_key(candidates@[x]));
                    }
                } else {
                    let y = id - first;
                    assert(outputs@[y].id_spec() == id);
                }
            }
            assert forall|id: usize| after.sstables@.contains_key(id) implies id
                < self.next_sst_id by {
                assert(goal.contains_key(id));
            }
        }
        removed
    }

    /// Freezes the memtable: it becomes the newest frozen memtable, and a
    /// new memtable takes the writes. Where no id is left for the new
    /// memtable, nothing is done. A reader gets what it got before.
    pub fn force_freeze_memtable(&mut self)
        requires
            old(self).wf(),
        ensures
            final(self).wf(),
            final(self).options_spec() == old(self).options_spec(),
            forall|k: Seq<u8>| #[trigger] final(self).get_spec(k) == old(self).get_spec(k),
            old(self).next_id() < usize::MAX ==> {
                &&& final(self).state_spec().imm_memtables@ == seq![old(self).state_spec().memtable]
                    + old(self).state_spec().imm_memtables@
                &&& final(self).state_spec().memtable.run().len() == 0
                &&& final(self).state_spec().memtable.id_spec() == old(self).next_id()
                &&& final(self).next_id() == old(self).next_id() + 1
            },
            old(self).next_id() == usize::MAX ==> final(self).state_spec() == old(self).state_spec()
                && final(self).next_id() == old(self).next_id(),
            final(self).state_spec().l0_sstables == old(self).state_spec().l0_sstables,
            final(self).state_spec().levels == old(self).state_spec().levels,
            final(self).state_spec().sstables == old(self).state_spec().sstables,
            final(self).controller_spec() == old(self).controller_spec(),
    {
        if self.next_sst_id == usize::MAX {
            return;
        }
        let ghost before = self.state;
        let id = self.next_sst_id;
        self.next_sst_id = id + 1;
        let mut frozen = Arc::new(MemTable::create(id));
        std::mem::swap(&mut self.state.memtable, &mut frozen);
        self.state.imm_memtables.insert(0, frozen);
        proof {
            assert(self.state.imm_memtables@ =~= seq![before.memtable] + before.imm_memtables@);
            before.lemma_frozen(self.state);
        }
    }
}

impl LsmStorageState {
    /// A store without tables and with empty memtables is well-formed and
    /// holds nothing.
    pub proof fn lemma_empty(&self)
        requires
            self.memtable.wf(),
            self.memtable.run().len() == 0,
            self.imm_memtables@.len() == 0,
            self.l0_sstables@.len() == 0,
            self.sstables@ == Map::<usize, Arc<SsTable>>::empty(),
            forall|j: int| 0 <= j < self.levels@.len() ==> (#[trigger] self.levels@[j]).1@.len() == 0,
        ensures
            self.wf(),
            forall|k: Seq<u8>| self.get_spec(k) is None,
    {
        let tiers = levels_view(self.levels@);
        lemma_no_ids(tiers);
        assert(self.table_ids() =~= Seq::<usize>::empty());
        assert forall|j: int| 0 <= j < self.levels@.len() implies self.ids_present(
            (#[trigger] self.levels@[j]).1@,
        ) && tables_ordered(self.tables_of(self.levels@[j].1@)) by {
            assert(self.levels@[j].1@.len() == 0);
            assert(table_runs(self.tables_of(self.levels@[j].1@)) =~= Seq::<Seq<Entry>>::empty());
        }
        assert forall|k: Seq<u8>| self.get_spec(k) is None by {
            lemma_all_empty_layers(self.layers(), k);
        }
    }

    /// A state that differs from this one in its memtable alone is
    /// well-formed where the memtable is, and holds in its lower layers
    /// what this one holds.
    pub proof fn lemma_with_memtable(&self, other: LsmStorageState)
        requires
            self.wf(),
            other.memtable.wf(),
            other.imm_memtables == self.imm_memtables,
            other.l0_sstables == self.l0_sstables,
            other.levels == self.levels,
            other.sstables == self.sstables,
        ensures
            other.wf(),
            other.layers() == seq![other.memtable.run()] + self.layers().skip(1),
            forall|k: Seq<u8>|
                #[trigger] first_some(other.layers(), k) == match lookup(other.memtable.run(), k) {
                    Some(v) => Some(v),
                    None => match lookup(self.memtable.run(), k) {
                        Some(v) => first_some(self.layers().skip(1), k),
                        None => first_some(self.layers(), k),
                    },
                },
    {
        assert(other.layers() =~= seq![other.memtable.run()] + self.layers().skip(1));
        assert(other.table_ids() == self.table_ids());
        assert forall|k: Seq<u8>|
            #[trigger] first_some(other.layers(), k) == match lookup(other.memtable.run(), k) {
                Some(v) => Some(v),
                None => match lookup(self.memtable.run(), k) {
                    Some(v) => first_some(self.layers().skip(1), k),
                    None => first_some(self.layers(), k),
                },
            } by {
            assert(other.layers().skip(1) =~= self.layers().skip(1));
        }
    }

    /// Whether this state and `other` have the same lists of ids and hold
    /// the same tables; their memtables may differ.
    pub open spec fn same_tables(&self, other: LsmStorageState) -> bool {
        &&& self.l0_sstables@ == other.l0_sstables@
        &&& levels_view(self.levels@) == levels_view(other.levels@)
        &&& self.sstables@ == other.sstables@
    }

    /// Whether no level from index `from` up to index `to` holds a table.
    pub open spec fn empty_between(&self, from: int, to: int) -> bool {
        forall|j: int|
            from <= j < to && 0 <= j < self.levels@.len() ==> (#[trigger] self.levels@[j]).1@.len()
                == 0
    }

    /// States with the same tables have the same empty levels.
    pub proof fn lemma_same_empty(&self, other: LsmStorageState, from: int, to: int)
        requires
            self.same_tables(other),
        ensures
            self.empty_between(from, to) == other.empty_between(from, to),
    {
        self.lemma_same_parts(other);
        if self.empty_between(from, to) {
            assert forall|j: int| from <= j < to && 0 <= j < other.levels@.len() implies (
            #[trigger] other.levels@[j]).1@.len() == 0 by {
                assert(self.levels@[j].1@.len() == 0);
            }
        }
        if other.empty_between(from, to) {
            assert forall|j: int| from <= j < to && 0 <= j < self.levels@.len() implies (
            #[trigger] self.levels@[j]).1@.len() == 0 by {
                assert(other.levels@[j].1@.len() == 0);
            }
        }
    }

    /// States with the same tables have the same layers of tables, and
    /// each is well-formed where the other is and its memtables are.
    pub proof fn lemma_same_parts(&self, other: LsmStorageState)
        requires
            self.same_tables(other),
        ensures
            self.l0_runs() == other.l0_runs(),
            self.level_runs() == other.level_runs(),
            self.levels@.len() == other.levels@.len(),
            forall|j: int|
                0 <= j < self.levels@.len() ==> (#[trigger] self.levels@[j]).1@
                    == other.levels@[j].1@ && self.levels@[j].0 == other.levels@[j].0,
            forall|j: int|
                0 <= j < other.levels@.len() ==> (#[trigger] other.levels@[j]).1@
                    == self.levels@[j].1@,
            self.wf() && other.memtable.wf() && (forall|i: int|
                0 <= i < other.imm_memtables@.len() ==> (#[trigger] other.imm_memtables@[i]).wf())
                ==> other.wf(),
    {
        let a = levels_view(self.levels@);
        let b = levels_view(other.levels@);
        assert(a.len() == self.levels@.len() && b.len() == other.levels@.len());
        assert forall|j: int| 0 <= j < self.levels@.len() implies (#[trigger] self.levels@[j]).1@
            == other.levels@[j].1@ && self.levels@[j].0 == other.levels@[j].0 by {
            assert(a[j] == (self.levels@[j].0, self.levels@[j].1@));
            assert(b[j] == (other.levels@[j].0, other.levels@[j].1@));
        }
        assert forall|j: int| 0 <= j < other.levels@.len() implies (#[trigger] other.levels@[j]).1@
            == self.levels@[j].1@ by {
            assert(self.levels@[j].1@ == other.levels@[j].1@);
        }
        assert(self.tables_of(self.l0_sstables@) =~= other.tables_of(other.l0_sstables@));
        assert forall|j: int| 0 <= j < self.levels@.len() implies self.level_run(j)
            == other.level_run(j) by {
            assert(self.levels@[j].1@ == other.levels@[j].1@);
            assert(self.tables_of(self.levels@[j].1@) =~= other.tables_of(other.levels@[j].1@));
        }
        assert(self.level_runs() =~= other.level_runs());
        assert(self.table_ids() == other.table_ids());
        self.lemma_wf();
        other.lemma_wf();
    }

    /// Whether the tables of the ids `ids` are the same handles in this
    /// state and in `other`.
    fn same_handles(&self, other: &LsmStorageState, ids: &Vec<usize>) -> (r: bool)
        requires
            self.ids_present(ids@),
            other.ids_present(ids@),
        ensures
            r ==> forall|i: int|
                0 <= i < ids@.len() ==> self.sstables@[#[trigger] ids@[i]] == other.sstables@[ids@[i]],
    {
        let mut i: usize = 0;
        while i < ids.len()
            invariant
                i <= ids@.len(),
                self.ids_present(ids@),
                other.ids_present(ids@),
                forall|x: int|
                    0 <= x < i ==> self.sstables@[#[trigger] ids@[x]] == other.sstables@[ids@[x]],
            decreases ids@.len() - i,
        {
            assert(self.sstables@.contains_key(ids@[i as int]));
            assert(other.sstables@.contains_key(ids@[i as int]));
            if !same_handle(&self.table(ids[i]), &other.table(ids[i])) {
                return false;
            }
            i += 1;
        }
        true
    }

    /// Whether this state and `other` have the same lists of ids and share
    /// their tables, as a state and its copy do. Two states whose tables
    /// are equal but were opened apart do not share them.
    pub fn shares_tables(&self, other: &LsmStorageState) -> (r: bool)
        requires
            self.wf(),
            other.wf(),
        ensures
            r ==> self.same_tables(*other),
    {
        if !same_ids(&self.l0_sstables, &other.l0_sstables) {
            return false;
        }
        if self.levels.len() != other.levels.len() {
            return false;
        }
        if !self.same_handles(other, &self.l0_sstables) {
            return false;
        }
        let n = self.levels.len();
        let mut j: usize = 0;
        while j < n
            invariant
                self.wf(),
                other.wf(),
                n == self.levels@.len(),
                n == other.levels@.len(),
                j <= n,
                forall|x: int|
                    0 <= x < j ==> (#[trigger] self.levels@[x]).0 == other.levels@[x].0
                        && self.levels@[x].1@ == other.levels@[x].1@,
                forall|x: int, y: int|
                    0 <= x < j && 0 <= y < self.levels@[x].1@.len() ==> self.sstables@[
                        #[trigger] self.levels@[x].1@[y]] == other.sstables@[self.levels@[x].1@[y]],
            decreases n - j,
        {
            if self.levels[j].0 != other.levels[j].0 || !same_ids(
                &self.levels[j].1,
                &other.levels[j].1,
            ) {
                return false;
            }
            assert(self.ids_present(self.levels@[j as int].1@));
            assert(other.ids_present(other.levels@[j as int].1@));
            if !self.same_handles(other, &self.levels[j].1) {
                return false;
            }
            j += 1;
        }
        proof {
            let a = levels_view(self.levels@);
            let b = levels_view(other.levels@);
            assert(a.len() == n && b.len() == n);
            assert forall|x: int| 0 <= x < n implies a[x] == b[x] by {
                assert(a[x] == (self.levels@[x].0, self.levels@[x].1@));
                assert(b[x] == (other.levels@[x].0, other.levels@[x].1@));
            }
            assert(a =~= b);
            assert(self.table_ids() == other.table_ids());
            self.lemma_table_ids();
            other.lemma_table_ids();
            assert forall|id: usize| self.table_ids().contains(id) implies self.sstables@[id]
                == other.sstables@[id] && self.sstables@.contains_key(id)
                && other.sstables@.contains_key(id) by {
                let at = choose|at: int| 0 <= at < self.table_ids().len() && self.table_ids()[at] == id;
                let n0 = self.l0_sstables@.len() as int;
                if at < n0 {
                    assert(self.l0_sstables@[at] == id);
                } else {
                    lemma_all_ids_source(a, at - n0);
                    let (x, y) = choose|x: int, y: int|
                        0 <= x < a.len() && 0 <= y < a[x].1.len() && all_ids(a)[at - n0]
                            == #[trigger] a[x].1[y];
                    assert(self.levels@[x].1@[y] == id);
                    assert(self.ids_present(self.levels@[x].1@));
                    assert(other.ids_present(other.levels@[x].1@));
                }
            }
            assert forall|id: usize| self.sstables@.contains_key(id) implies other.sstables@.contains_key(
                id,
            ) by {
                assert(self.table_ids().contains(id));
            }
            assert forall|id: usize| other.sstables@.contains_key(id) implies self.sstables@.contains_key(
                id,
            ) by {
                assert(other.table_ids().contains(id));
                assert(self.table_ids().contains(id));
            }
            assert forall|id: usize| self.sstables@.contains_key(id) implies self.sstables@[id]
                == other.sstables@[id] by {
                assert(self.table_ids().contains(id));
            }
            assert(self.sstables@.dom() =~= other.sstables@.dom());
            assert(self.sstables@ =~= other.sstables@);
        }
        true
    }

    /// The tables of the ids `ids` are those of `other`, where the two
    /// states hold the same tables for them.
    pub proof fn lemma_same_tables(&self, other: LsmStorageState, ids: Seq<usize>)
        requires
            forall|i: int|
                0 <= i < ids.len() ==> self.sstables@[#[trigger] ids[i]] == other.sstables@[ids[i]],
        ensures
            self.tables_of(ids) == other.tables_of(ids),
    {
        assert(self.tables_of(ids) =~= other.tables_of(ids));
    }

    /// Every id of level 0 and of each level is among the ids of the
    /// store.
    pub proof fn lemma_table_ids(&self)
        ensures
            forall|i: int|
                0 <= i < self.l0_sstables@.len() ==> self.table_ids().contains(
                    #[trigger] self.l0_sstables@[i],
                ),
            forall|j: int, i: int|
                0 <= j < self.levels@.len() && 0 <= i < self.levels@[j].1@.len()
                    ==> self.table_ids().contains(#[trigger] self.levels@[j].1@[i]),
    {
        assert forall|i: int| 0 <= i < self.l0_sstables@.len() implies self.table_ids().contains(
            #[trigger] self.l0_sstables@[i],
        ) by {
            assert(self.table_ids()[i] == self.l0_sstables@[i]);
        }
        assert forall|j: int, i: int|
            0 <= j < self.levels@.len() && 0 <= i
                < self.levels@[j].1@.len() implies self.table_ids().contains(
            #[trigger] self.levels@[j].1@[i],
        ) by {
            let tiers = levels_view(self.levels@);
            lemma_all_ids_member(tiers, j, i);
            let at = choose|at: int| 0 <= at < all_ids(tiers).len() && all_ids(tiers)[at] == tiers[j].1[i];
            assert(self.table_ids()[self.l0_sstables@.len() + at] == self.levels@[j].1@[i]);
        }
    }

    /// The invariant in terms of the lists of ids and the map of tables.
    pub proof fn lemma_wf(&self)
        ensures
            self.wf() <==> {
                &&& self.memtable.wf()
                &&& forall|i: int|
                    0 <= i < self.imm_memtables@.len() ==> (#[trigger] self.imm_memtables@[i]).wf()
                &&& lists_ok(self.l0_sstables@, levels_view(self.levels@), self.sstables@)
                &&& forall|id: usize|
                    self.sstables@.contains_key(id) ==> self.table_ids().contains(id)
            },
    {
        let tiers = levels_view(self.levels@);
        assert(self.tables_of(self.l0_sstables@) =~= resolve(self.sstables@, self.l0_sstables@));
        if self.wf() {
            assert forall|j: int| 0 <= j < tiers.len() implies present(
                self.sstables@,
                (#[trigger] tiers[j]).1,
            ) && tables_ordered(resolve(self.sstables@, tiers[j].1)) by {
                assert(self.ids_present(self.levels@[j].1@));
                assert(self.tables_of(self.levels@[j].1@) =~= resolve(self.sstables@, tiers[j].1));
            }
        }
        if lists_ok(self.l0_sstables@, tiers, self.sstables@) {
            assert forall|j: int| 0 <= j < self.levels@.len() implies self.ids_present(
                (#[trigger] self.levels@[j]).1@,
            ) && tables_ordered(self.tables_of(self.levels@[j].1@)) by {
                assert(present(self.sstables@, tiers[j].1));
                assert(self.tables_of(self.levels@[j].1@) =~= resolve(self.sstables@, tiers[j].1));
            }
        }
    }

    /// Whether one of the lists of ids names `id`.
    pub fn names(&self, id: usize) -> (r: bool)
        ensures
            r == self.table_ids().contains(id),
    {
        let ghost tiers = levels_view(self.levels@);
        let ghost n0 = self.l0_sstables@.len() as int;
        if contains_id(&self.l0_sstables, id) {
            proof {
                let at = choose|at: int| 0 <= at < n0 && self.l0_sstables@[at] == id;
                assert(self.table_ids()[at] == id);
            }
            return true;
        }
        let mut j: usize = 0;
        while j < self.levels.len()
            invariant
                j <= self.levels@.len(),
                tiers == levels_view(self.levels@),
                n0 == self.l0_sstables@.len(),
                forall|x: int| 0 <= x < j ==> !(#[trigger] tiers[x]).1.contains(id),
            decreases self.levels@.len() - j,
        {
            assert(tiers[j as int].1 == self.levels@[j as int].1@);
            if contains_id(&self.levels[j].1, id) {
                proof {
                    let i = choose|i: int| 0 <= i < tiers[j as int].1.len() && tiers[j as int].1[i] == id;
                    lemma_all_ids_member(tiers, j as int, i);
                    let at = choose|at: int| 0 <= at < all_ids(tiers).len() && all_ids(tiers)[at] == id;
                    assert(self.table_ids()[n0 + at] == id);
                }
                return true;
            }
            j += 1;
        }
        proof {
            if self.table_ids().contains(id) {
                let at = choose|at: int| 0 <= at < self.table_ids().len() && self.table_ids()[at] == id;
                if at < n0 {
                    assert(self.l0_sstables@[at] == id);
                } else {
                    lemma_all_ids_source(tiers, at - n0);
                    let (x, i) = choose|x: int, i: int|
                        0 <= x < tiers.len() && 0 <= i < tiers[x].1.len() && all_ids(tiers)[at - n0]
                            == #[trigger] tiers[x].1[i];
                    assert(tiers[x].1.contains(id));
                }
            }
        }
        false
    }

    /// A state that holds one more table than this one, under a new id,
    /// names for every list of ids of this one the tables that this one
    /// names.
    pub proof fn lemma_one_more_table(&self, other: LsmStorageState, id: usize, table: Arc<SsTable>)
        requires
            self.wf(),
            !self.sstables@.contains_key(id),
            other.sstables@ == self.sstables@.insert(id, table),
        ensures
            other.tables_of(self.l0_sstables@) == self.tables_of(self.l0_sstables@),
            forall|j: int|
                0 <= j < self.levels@.len() ==> other.tables_of((#[trigger] self.levels@[j]).1@)
                    == self.tables_of(self.levels@[j].1@),
    {
        assert forall|j: int| 0 <= j < self.levels@.len() implies other.tables_of(
            (#[trigger] self.levels@[j]).1@,
        ) == self.tables_of(self.levels@[j].1@) by {
            let ids = self.levels@[j].1@;
            assert(self.ids_present(ids));
            assert forall|i: int| 0 <= i < ids.len() implies other.sstables@[#[trigger] ids[i]]
                == self.sstables@[ids[i]] by {
                assert(self.sstables@.contains_key(ids[i]));
            }
            other.lemma_same_tables(*self, ids);
        }
        assert forall|i: int| 0 <= i < self.l0_sstables@.len() implies other.sstables@[
            #[trigger] self.l0_sstables@[i]] == self.sstables@[self.l0_sstables@[i]] by {
            assert(self.sstables@.contains_key(self.l0_sstables@[i]));
        }
        other.lemma_same_tables(*self, self.l0_sstables@);
    }

    /// Whether `other` is this state after the oldest frozen memtable has
    /// become a table with the id `id` of blocks of the target size
    /// `block`: the memtable has left, the table holds its entries and is
    /// the newest table of level 0 (`to_l0`) or a tier of its own above the
    /// others, and nothing else has changed.
    pub open spec fn flushed_to(&self, other: LsmStorageState, id: usize, block: int, to_l0: bool) -> bool {
        &&& other.memtable == self.memtable
        &&& other.imm_memtables@ == self.imm_memtables@.drop_last()
        &&& other.sstables@.contains_key(id)
        &&& other.sstables@ == self.sstables@.insert(id, other.sstables@[id])
        &&& other.sstables@[id].id_spec() == id
        &&& other.sstables@[id].entries() == self.imm_memtables@.last().run()
        &&& other.sstables@[id].runs() == blocks_of(self.imm_memtables@.last().run(), block)
        &&& to_l0 ==> other.l0_sstables@ == seq![id] + self.l0_sstables@ && levels_view(
            other.levels@,
        ) == levels_view(self.levels@)
        &&& !to_l0 ==> other.l0_sstables@ == self.l0_sstables@ && levels_view(other.levels@)
            == seq![(id, seq![id])] + levels_view(self.levels@)
    }

    /// A state in which the oldest frozen memtable of this one has become
    /// the table `table` with the new id `id`, as the newest table of level
    /// 0 or as a tier of its own above the others, is well-formed and holds
    /// what this one holds.
    #[verifier::rlimit(100)]
    pub proof fn lemma_flushed(
        &self,
        other: LsmStorageState,
        id: usize,
        table: Arc<SsTable>,
        to_l0: bool,
    )
        requires
            self.wf(),
            self.imm_memtables@.len() > 0,
            other.memtable == self.memtable,
            other.imm_memtables@ == self.imm_memtables@.drop_last(),
            table.wf(),
            table.entries() == self.imm_memtables@.last().run(),
            table.entries().len() > 0,
            !self.sstables@.contains_key(id),
            other.sstables@ == self.sstables@.insert(id, table),
            to_l0 ==> other.l0_sstables@ == seq![id] + self.l0_sstables@ && levels_view(
                other.levels@,
            ) == levels_view(self.levels@),
            !to_l0 ==> self.l0_sstables@.len() == 0 && other.l0_sstables@.len() == 0 && levels_view(
                other.levels@,
            ) == seq![(id, seq![id])] + levels_view(self.levels@),
        ensures
            other.wf(),
            other.layers() == self.layers(),
    {
        self.lemma_table_ids();
        let shift: int = if to_l0 { 0 } else { 1 };
        assert(levels_view(other.levels@).len() == other.levels@.len());
        assert(levels_view(self.levels@).len() == self.levels@.len());
        assert(other.levels@.len() == self.levels@.len() + shift);
        // The tables that both states name are the same.
        self.lemma_one_more_table(other, id, table);
        assert forall|j: int| 0 <= j < self.levels@.len() implies other.levels@[j + shift].1@
            == self.levels@[j].1@ && other.tables_of(self.levels@[j].1@) == self.tables_of(
            (#[trigger] self.levels@[j]).1@,
        ) by {
            let ids = self.levels@[j].1@;
            assert(levels_view(self.levels@)[j] == (self.levels@[j].0, ids));
            assert(levels_view(other.levels@)[j + shift] == (
                other.levels@[j + shift].0,
                other.levels@[j + shift].1@,
            ));
            assert(levels_view(other.levels@)[j + shift] == levels_view(self.levels@)[j]);
        }
        assert forall|i: int| 0 <= i < other.imm_memtables@.len() implies (
        #[trigger] other.imm_memtables@[i]).wf() by {
            assert(self.imm_memtables@[i].wf());
        }
        let one = seq![table];
        assert(table_runs(one) =~= seq![table.entries()]);
        table.lemma_entries();
        crate::run::lemma_concat_one(table.entries());
        if to_l0 {
            assert(other.levels@.len() == self.levels@.len());
            assert(other.tables_of(other.l0_sstables@) =~= one + self.tables_of(self.l0_sstables@));
            assert(other.l0_runs() =~= seq![table.entries()] + self.l0_runs());
            assert(other.level_runs() =~= self.level_runs());
            assert(other.table_ids() =~= seq![id] + self.table_ids());
            assert forall|j: int| 0 <= j < other.levels@.len() implies other.ids_present(
                (#[trigger] other.levels@[j]).1@,
            ) && tables_ordered(other.tables_of(other.levels@[j].1@)) by {
                assert(self.ids_present(self.levels@[j].1@));
                assert(tables_ordered(self.tables_of(self.levels@[j].1@)));
            }
            assert forall|i: int| 0 <= i < other.l0_sstables@.len() implies (
            #[trigger] other.tables_of(other.l0_sstables@)[i]).wf() by {
                if i > 0 {
                    assert(self.tables_of(self.l0_sstables@)[i - 1].wf());
                }
            }
        } else {
            assert(other.levels@.len() == self.levels@.len() + 1);
            assert(levels_view(other.levels@)[0] == (id, seq![id]));
            assert(other.levels@[0].1@ =~= seq![id]);
            assert(other.tables_of(other.levels@[0].1@) =~= one);
            assert(other.level_runs() =~= seq![table.entries()] + self.level_runs());
            assert(other.l0_runs() =~= Seq::<Seq<Entry>>::empty());
            assert(self.l0_runs() =~= Seq::<Seq<Entry>>::empty());
            lemma_all_ids_prepend((id, seq![id]), levels_view(self.levels@));
            assert(other.l0_sstables@ =~= self.l0_sstables@);
            assert(other.table_ids() =~= seq![id] + self.table_ids());
            assert forall|j: int| 0 <= j < other.levels@.len() implies other.ids_present(
                (#[trigger] other.levels@[j]).1@,
            ) && tables_ordered(other.tables_of(other.levels@[j].1@)) by {
                if j > 0 {
                    assert(other.levels@[j - 1 + 1].1@ == self.levels@[j - 1].1@);
                    assert(self.ids_present(self.levels@[j - 1].1@));
                    assert(tables_ordered(self.tables_of(self.levels@[j - 1].1@)));
                    assert(other.tables_of(self.levels@[j - 1].1@) == self.tables_of(
                        self.levels@[j - 1].1@,
                    ));
                } else {
                    assert(one[0].wf());
                }
            }
        }
        let runs = self.mem_runs();
        assert(other.mem_runs() =~= runs.drop_last());
        assert(runs.last() == table.entries());
        assert(other.layers() =~= self.layers());
        assert forall|x: usize| other.sstables@.contains_key(x) implies other.table_ids().contains(
            x,
        ) by {
            if x == id {
                assert(other.table_ids()[0] == id);
            } else {
                assert(self.table_ids().contains(x));
                let at = choose|at: int| 0 <= at < self.table_ids().len() && self.table_ids()[at] == x;
                assert(other.table_ids()[at + 1] == x);
            }
        }
    }

    /// A state without the oldest frozen memtable of this one, which is
    /// empty, is well-formed and holds what this one holds.
    pub proof fn lemma_dropped(&self, other: LsmStorageState)
        requires
            self.wf(),
            self.imm_memtables@.len() > 0,
            self.imm_memtables@.last().run().len() == 0,
            other.memtable == self.memtable,
            other.imm_memtables@ == self.imm_memtables@.drop_last(),
            other.l0_sstables == self.l0_sstables,
            other.levels == self.levels,
            other.sstables == self.sstables,
        ensures
            other.wf(),
            forall|k: Seq<u8>| #[trigger] other.get_spec(k) == self.get_spec(k),
    {
        assert forall|i: int| 0 <= i < other.imm_memtables@.len() implies (
        #[trigger] other.imm_memtables@[i]).wf() by {
            assert(self.imm_memtables@[i].wf());
        }
        let rest = self.l0_runs() + self.level_runs();
        assert(other.table_ids() == self.table_ids());
        assert(self.imm_memtables@.last().run() =~= Seq::<Entry>::empty());
        let n = self.imm_memtables@.len() as int;
        let lhs = self.mem_runs();
        let rhs = other.mem_runs() + seq![Seq::<Entry>::empty()];
        assert forall|i: int| 0 <= i < lhs.len() implies lhs[i] == rhs[i] by {
            if 0 < i < n {
                assert(other.imm_memtables@[i - 1] == self.imm_memtables@[i - 1]);
            }
        }
        assert(self.mem_runs() =~= other.mem_runs() + seq![Seq::<Entry>::empty()]);
        assert(self.layers() =~= other.mem_runs() + seq![Seq::<Entry>::empty()] + rest);
        assert(other.layers() =~= other.mem_runs() + rest);
        assert forall|k: Seq<u8>| #[trigger] other.get_spec(k) == self.get_spec(k) by {
            lemma_first_some_drop_empty(other.mem_runs(), rest, k);
        }
    }

    /// A state in which the memtable of this one is frozen, under a new and
    /// empty memtable, is well-formed and holds what this one holds.
    pub proof fn lemma_frozen(&self, other: LsmStorageState)
        requires
            self.wf(),
            other.memtable.wf(),
            other.memtable.run().len() == 0,
            other.imm_memtables@ == seq![self.memtable] + self.imm_memtables@,
            other.l0_sstables == self.l0_sstables,
            other.levels == self.levels,
            other.sstables == self.sstables,
        ensures
            other.wf(),
            forall|k: Seq<u8>| #[trigger] other.get_spec(k) == self.get_spec(k),
    {
        assert forall|i: int| 0 <= i < other.imm_memtables@.len() implies (
        #[trigger] other.imm_memtables@[i]).wf() by {
            if i > 0 {
                assert(self.imm_memtables@[i - 1].wf());
            }
        }
        assert(other.layers().skip(1) =~= self.layers());
        assert(other.table_ids() == self.table_ids());
    }
}

/// The tables that `map` holds for the ids `ids`.
pub open spec fn resolve(map: Map<usize, Arc<SsTable>>, ids: Seq<usize>) -> Seq<Arc<SsTable>> {
    Seq::new(ids.len(), |i: int| map[ids[i]])
}

/// `map` holds a table for every id of `ids`.
pub open spec fn present(map: Map<usize, Arc<SsTable>>, ids: Seq<usize>) -> bool {
    forall|i: int| 0 <= i < ids.len() ==> map.contains_key(#[trigger] ids[i])
}

/// The lists of ids `l0` and `tiers` name tables of `map` that can make up
/// a store: all are open and hold entries; those of level 0 are
/// well-formed; those of each tier are ordered by key range.
pub open spec fn lists_ok(
    l0: Seq<usize>,
    tiers: Seq<(usize, Seq<usize>)>,
    map: Map<usize, Arc<SsTable>>,
) -> bool {
    &&& present(map, l0)
    &&& forall|i: int|
        0 <= i < l0.len() ==> (#[trigger] resolve(map, l0)[i]).wf() && resolve(
            map,
            l0,
        )[i].entries().len() > 0
    &&& forall|j: int|
        0 <= j < tiers.len() ==> present(map, (#[trigger] tiers[j]).1) && tables_ordered(
            resolve(map, tiers[j].1),
        )
}

/// `map` with each of `tables` under its id.
pub open spec fn add_tables(map: Map<usize, Arc<SsTable>>, tables: Seq<Arc<SsTable>>) -> Map<
    usize,
    Arc<SsTable>,
>
    decreases tables.len(),
{
    if tables.len() == 0 {
        map
    } else {
        add_tables(map, tables.drop_last()).insert(tables.last().id_spec(), tables.last())
    }
}

/// New tables that a state names, and holds as they were added to the
/// tables of the state before, are found in it under their ids.
pub proof fn lemma_installed(
    before: Map<usize, Arc<SsTable>>,
    after: LsmStorageState,
    outputs: Seq<Arc<SsTable>>,
    first: int,
)
    requires
        ids_from(outputs, first),
        forall|id: usize| before.contains_key(id) ==> id < first,
        forall|i: int|
            0 <= i < outputs.len() ==> after.table_ids().contains((#[trigger] outputs[i]).id_spec()),
        forall|id: usize|
            #[trigger] after.table_ids().contains(id) ==> after.sstables@.contains_key(id)
                && after.sstables@[id] == add_tables(before, outputs)[id],
    ensures
        after.tables_of(crate::compact::ids_of(outputs)) == outputs,
{
    lemma_add_tables(before, outputs, first);
    let ids = crate::compact::ids_of(outputs);
    assert forall|i: int| 0 <= i < outputs.len() implies after.tables_of(ids)[i] == outputs[i] by {
        assert(after.table_ids().contains(outputs[i].id_spec()));
    }
    assert(after.tables_of(ids) =~= outputs);
}

/// Tables with new ids, added to a map, are found under their ids, beside
/// what the map held.
pub proof fn lemma_add_tables(map: Map<usize, Arc<SsTable>>, tables: Seq<Arc<SsTable>>, first: int)
    requires
        ids_from(tables, first),
        forall|id: usize| map.contains_key(id) ==> id < first,
    ensures
        forall|i: int|
            0 <= i < tables.len() ==> add_tables(map, tables).contains_key(
                (#[trigger] tables[i]).id_spec(),
            ) && add_tables(map, tables)[tables[i].id_spec()] == tables[i],
        forall|id: usize|
            map.contains_key(id) ==> #[trigger] add_tables(map, tables).contains_key(id)
                && add_tables(map, tables)[id] == map[id],
        forall|id: usize|
            #[trigger] add_tables(map, tables).contains_key(id) ==> map.contains_key(id) || (first
                <= id < first + tables.len()),
    decreases tables.len(),
{
    if tables.len() > 0 {
        let front = tables.drop_last();
        assert forall|i: int| 0 <= i < front.len() implies (#[trigger] front[i]).id_spec() == first
            + i by {
            assert(tables[i].id_spec() == first + i);
        }
        lemma_add_tables(map, front, first);
        let n = tables.len() as int;
        assert(tables[n - 1].id_spec() == first + n - 1);
        let last = tables[n - 1].id_spec();
        assert(add_tables(map, tables) == add_tables(map, front).insert(last, tables[n - 1]));
        assert forall|i: int| 0 <= i < tables.len() implies add_tables(map, tables).contains_key(
            (#[trigger] tables[i]).id_spec(),
        ) && add_tables(map, tables)[tables[i].id_spec()] == tables[i] by {
            if i < n - 1 {
                assert(front[i].id_spec() == first + i);
                assert(add_tables(map, front)[front[i].id_spec()] == front[i]);
            }
        }
        assert forall|id: usize| map.contains_key(id) implies #[trigger] add_tables(
            map,
            tables,
        ).contains_key(id) && add_tables(map, tables)[id] == map[id] by {
            assert(add_tables(map, front).contains_key(id));
            assert(id != last);
        }
        assert forall|id: usize| #[trigger]
            add_tables(map, tables).contains_key(id) implies map.contains_key(id) || (first <= id
            < first + tables.len()) by {
            if id != last {
                assert(add_tables(map, front).contains_key(id));
            }
        }
    }
}

/// The ids of tiers with one more tier above them.
pub proof fn lemma_all_ids_prepend(tier: (usize, Seq<usize>), tiers: Seq<(usize, Seq<usize>)>)
    ensures
        all_ids(seq![tier] + tiers) == tier.1 + all_ids(tiers),
    decreases tiers.len(),
{
    let all = seq![tier] + tiers;
    if tiers.len() == 0 {
        assert(all.drop_last() =~= Seq::<(usize, Seq<usize>)>::empty());
        assert(all_ids(all.drop_last()) =~= Seq::<usize>::empty());
        assert(all_ids(all) =~= tier.1 + all_ids(tiers));
    } else {
        lemma_all_ids_prepend(tier, tiers.drop_last());
        assert(all.drop_last() =~= seq![tier] + tiers.drop_last());
        assert(all_ids(all) =~= tier.1 + all_ids(tiers));
    }
}

/// Every id of a tier is among the ids of all tiers.
pub proof fn lemma_all_ids_member(tiers: Seq<(usize, Seq<usize>)>, j: int, i: int)
    requires
        0 <= j < tiers.len(),
        0 <= i < tiers[j].1.len(),
    ensures
        all_ids(tiers).contains(tiers[j].1[i]),
    decreases tiers.len(),
{
    let front = tiers.drop_last();
    if j == tiers.len() - 1 {
        let at = all_ids(front).len() + i;
        assert(all_ids(tiers)[at] == tiers[j].1[i]);
    } else {
        lemma_all_ids_member(front, j, i);
        let at = choose|at: int| 0 <= at < all_ids(front).len() && all_ids(front)[at] == front[j].1[i];
        assert(all_ids(tiers)[at] == tiers[j].1[i]);
    }
}

/// Every one of the ids of all tiers is an id of one of the tiers.
pub proof fn lemma_all_ids_source(tiers: Seq<(usize, Seq<usize>)>, at: int)
    requires
        0 <= at < all_ids(tiers).len(),
    ensures
        exists|j: int, i: int|
            0 <= j < tiers.len() && 0 <= i < tiers[j].1.len() && all_ids(tiers)[at]
                == #[trigger] tiers[j].1[i],
    decreases tiers.len(),
{
    let front = tiers.drop_last();
    let n = tiers.len() as int;
    if at >= all_ids(front).len() {
        let i = at - all_ids(front).len();
        assert(all_ids(tiers)[at] == tiers[n - 1].1[i]);
    } else {
        lemma_all_ids_source(front, at);
        let (j, i) = choose|j: int, i: int|
            0 <= j < front.len() && 0 <= i < front[j].1.len() && all_ids(front)[at]
                == #[trigger] front[j].1[i];
        assert(all_ids(tiers)[at] == tiers[j].1[i]);
    }
}

/// A layer without entries changes nothing.
pub proof fn lemma_first_some_drop_empty(a: Seq<Seq<Entry>>, b: Seq<Seq<Entry>>, k: Seq<u8>)
    ensures
        first_some(a + seq![Seq::<Entry>::empty()] + b, k) == first_some(a + b, k),
{
    let e = seq![Seq::<Entry>::empty()];
    lemma_first_some_concat(a + e, b, k);
    lemma_first_some_concat(a, e, k);
    lemma_first_some_concat(a, b, k);
    assert(e.skip(1) =~= Seq::<Seq<Entry>>::empty());
    assert(lookup(e[0], k) is None);
    assert(first_some(e.skip(1), k) is None);
    assert(first_some(e, k) is None);
}

/// Tiers without tables hold no ids.
pub proof fn lemma_no_ids(tiers: Seq<(usize, Seq<usize>)>)
    requires
        forall|j: int| 0 <= j < tiers.len() ==> (#[trigger] tiers[j]).1.len() == 0,
    ensures
        all_ids(tiers).len() == 0,
    decreases tiers.len(),
{
    if tiers.len() > 0 {
        let front = tiers.drop_last();
        assert forall|j: int| 0 <= j < front.len() implies (#[trigger] front[j]).1.len() == 0 by {
            assert(tiers[j].1.len() == 0);
        }
        lemma_no_ids(front);
        assert(tiers[tiers.len() - 1].1.len() == 0);
    }
}

/// Empty layers hold no key.
pub proof fn lemma_all_empty_layers(layers: Seq<Seq<Entry>>, k: Seq<u8>)
    requires
        forall|i: int| 0 <= i < layers.len() ==> (#[trigger] layers[i]).len() == 0,
    ensures
        first_some(layers, k) is None,
    decreases layers.len(),
{
    if layers.len() > 0 {
        let rest = layers.skip(1);
        assert forall|i: int| 0 <= i < rest.len() implies (#[trigger] rest[i]).len() == 0 by {
            assert(layers[i + 1].len() == 0);
        }
        lemma_all_empty_layers(rest, k);
        assert(layers[0].len() == 0);
    }
}

} // verus!
