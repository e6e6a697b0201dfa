//! Compaction: the controllers that decide what to compact.

pub mod writer;
pub mod descend;
pub mod fit;
pub mod place;
pub mod plan;
pub mod leveled;
pub mod simple_leveled;
pub mod tiered;

use std::collections::HashSet;
use std::sync::Arc;
use vstd::prelude::*;
use crate::compact::plan::same_ids;
use crate::compact::writer::{build_tables, ids_from, tables_split, writable};
use crate::error::Error;
use crate::handle::share;
use crate::iterators::concat_iterator::{table_runs, tables_ordered, SstConcatIterator};
use crate::iterators::merge_iterator::MergeIterator;
use crate::iterators::two_merge_iterator::TwoMergeIterator;
use crate::iterators::{
    first_some, kept, lemma_compacted, lemma_first_some_concat, lemma_live, lemma_merge2,
    lemma_merge_all, merge2, merge_all, visible, StorageIterator,
};
use crate::lsm_storage::{
    add_tables, copy_ids, copy_levels, lemma_add_tables, lemma_installed, levels_view, lists_ok,
    present, resolve, LsmStorageInner, LsmStorageState,
};
use crate::run::{concat_runs, is_run, lookup, Entry};
use crate::table::iterator::SsTableIterator;
use crate::table::SsTable;
use crate::compact::leveled::{
    LeveledCompactionController, LeveledCompactionOptions, LeveledCompactionTask,
};
use crate::compact::simple_leveled::{
    SimpleLeveledCompactionController, SimpleLeveledCompactionOptions,
    SimpleLeveledCompactionTask, SimpleLeveledCompactionTaskView,
};
use crate::compact::tiered::{
    all_ids, TieredCompactionController, TieredCompactionOptions, TieredCompactionTask,
    TieredCompactionTaskView,
};

verus! {

broadcast use vstd::std_specs::hash::group_hash_axioms;

/// What a compaction is to do.
#[derive(Debug)]
pub enum CompactionTask {
    /// A task of leveled compaction.
    Leveled(LeveledCompactionTask),
    /// A task of tiered compaction.
    Tiered(TieredCompactionTask),
    /// A task of simple leveled compaction.
    Simple(SimpleLeveledCompactionTask),
    /// Merge the tables `sstables`, those of level 0 and of level 1, into a
    /// new level 1.
    ForceFullCompaction { sstables: Vec<usize> },
}

impl CompactionTask {
    /// Whether the task is marked as reaching the last level.
    pub open spec fn bottom(&self) -> bool {
        match self {
            CompactionTask::ForceFullCompaction { .. } => true,
            CompactionTask::Leveled(task) => task.is_lower_level_bottom_level,
            CompactionTask::Simple(task) => task.is_lower_level_bottom_level,
            CompactionTask::Tiered(task) => task.bottom_tier_included,
        }
    }

    /// Whether the compaction writes to the last level, so that tombstones
    /// may be dropped.
    pub fn compact_to_bottom_level(&self) -> (r: bool)
        ensures
            r == match self {
                CompactionTask::ForceFullCompaction { .. } => true,
                CompactionTask::Leveled(task) => task.is_lower_level_bottom_level,
                CompactionTask::Simple(task) => task.is_lower_level_bottom_level,
                CompactionTask::Tiered(task) => task.bottom_tier_included,
            },
    {
        match self {
            CompactionTask::ForceFullCompaction { .. } => true,
            CompactionTask::Leveled(task) => task.is_lower_level_bottom_level,
            CompactionTask::Simple(task) => task.is_lower_level_bottom_level,
            CompactionTask::Tiered(task) => task.bottom_tier_included,
        }
    }
}

/// The controller of the compaction that the options name.
pub enum CompactionController {
    /// Leveled compaction with dynamic level sizes.
    Leveled(LeveledCompactionController),
    /// Tiered compaction.
    Tiered(TieredCompactionController),
    /// Simple leveled compaction.
    Simple(SimpleLeveledCompactionController),
    /// No compaction.
    NoCompaction,
}

impl CompactionController {
    /// Whether this is the controller that the options ask for.
    pub open spec fn made_for(&self, options: CompactionOptions) -> bool {
        match options {
            CompactionOptions::Leveled(o) => self matches CompactionController::Leveled(c)
                && c.options_spec() == o,
            CompactionOptions::Tiered(o) => self matches CompactionController::Tiered(c)
                && c.options_spec() == o,
            CompactionOptions::Simple(o) => self matches CompactionController::Simple(c)
                && c.options_spec() == o,
            CompactionOptions::NoCompaction => self is NoCompaction,
        }
    }

    /// Whether the task is one of this controller.
    pub open spec fn owns(&self, task: &CompactionTask) -> bool {
        match (self, task) {
            (CompactionController::Leveled(_), CompactionTask::Leveled(_)) => true,
            (CompactionController::Simple(_), CompactionTask::Simple(_)) => true,
            (CompactionController::Tiered(_), CompactionTask::Tiered(_)) => true,
            _ => false,
        }
    }

    /// Generates a compaction task by the controller's rules; `None` where
    /// nothing is to be compacted, and always without compaction.
    pub fn generate_compaction_task(&self, snapshot: &LsmStorageState) -> (r: Option<
        CompactionTask,
    >)
        requires
            self is Leveled ==> present(snapshot.sstables@, snapshot.l0_sstables@) && forall|
                j: int,
            |
                0 <= j < snapshot.levels@.len() ==> present(
                    snapshot.sstables@,
                    (#[trigger] snapshot.levels@[j]).1@,
                ),
        ensures
            match self {
                CompactionController::Leveled(ctrl) => match crate::compact::leveled::leveled_task(
                    ctrl.options_spec(),
                    snapshot.l0_sstables@,
                    levels_view(snapshot.levels@),
                    snapshot.sstables@,
                ) {
                    Some(t) => r matches Some(CompactionTask::Leveled(task)) && task@ == t,
                    None => r is None,
                },
                CompactionController::Simple(ctrl) => match crate::compact::simple_leveled::simple_task(
                    ctrl.options_spec(),
                    snapshot.l0_sstables@,
                    levels_view(snapshot.levels@),
                ) {
                    Some(t) => r matches Some(CompactionTask::Simple(task)) && task@ == t,
                    None => r is None,
                },
                CompactionController::Tiered(ctrl) => match crate::compact::tiered::tiered_task(
                    ctrl.options_spec(),
                    levels_view(snapshot.levels@),
                ) {
                    Some(t) => r matches Some(CompactionTask::Tiered(task)) && task@ == t,
                    None => r is None,
                },
                CompactionController::NoCompaction => r is None,
            },
    {
        match self {
            CompactionController::Leveled(ctrl) => match ctrl.generate_compaction_task(snapshot) {
                Some(task) => Some(CompactionTask::Leveled(task)),
                None => None,
            },
            CompactionController::Simple(ctrl) => match ctrl.generate_compaction_task(snapshot) {
                Some(task) => Some(CompactionTask::Simple(task)),
                None => None,
            },
            CompactionController::Tiered(ctrl) => match ctrl.generate_compaction_task(snapshot) {
                Some(task) => Some(CompactionTask::Tiered(task)),
                None => None,
            },
            CompactionController::NoCompaction => None,
        }
    }

    /// Applies the result of a compaction by the controller's rules: see
    /// `apply_compaction_result` of the controller that owns the task.
    pub fn apply_compaction_result(
        &self,
        snapshot: &LsmStorageState,
        task: &CompactionTask,
        output: &[usize],
        in_recovery: bool,
    ) -> (r: (LsmStorageState, Vec<usize>))
        requires
            self.owns(task),
            task matches CompactionTask::Leveled(t) ==> crate::compact::leveled::applicable(
                levels_view(snapshot.levels@),
                t@,
            ) && (!in_recovery ==> present(
                snapshot.sstables@,
                without(levels_view(snapshot.levels@)[t.lower_level - 1].1, t.lower_level_sst_ids@)
                    + output@,
            )),
            task matches CompactionTask::Simple(t) ==> crate::compact::simple_leveled::applicable(
                levels_view(snapshot.levels@),
                t@,
            ),
            task matches CompactionTask::Tiered(t) ==> crate::compact::tiered::applicable(
                levels_view(snapshot.levels@),
                t@,
            ),
        ensures
            r.0.memtable == snapshot.memtable,
            r.0.imm_memtables@ == snapshot.imm_memtables@,
            r.0.sstables@ == snapshot.sstables@,
            task matches CompactionTask::Leveled(t) ==> crate::compact::leveled::applied(
                snapshot.l0_sstables@,
                levels_view(snapshot.levels@),
                snapshot.sstables@,
                t@,
                output@,
                in_recovery,
                r.0.l0_sstables@,
                levels_view(r.0.levels@),
                r.1@,
            ),
            task matches CompactionTask::Simple(t) ==> crate::compact::simple_leveled::applied(
                snapshot.l0_sstables@,
                levels_view(snapshot.levels@),
                t@,
                output@,
                r.0.l0_sstables@,
                levels_view(r.0.levels@),
                r.1@,
            ),
            task matches CompactionTask::Tiered(t) ==> crate::compact::tiered::applied(
                snapshot.l0_sstables@,
                levels_view(snapshot.levels@),
                t@,
                output@,
                r.0.l0_sstables@,
                levels_view(r.0.levels@),
                r.1@,
            ),
    {
        match (self, task) {
            (CompactionController::Leveled(ctrl), CompactionTask::Leveled(task)) => {
                assert(levels_view(snapshot.levels@)[task.lower_level - 1].1
                    == snapshot.levels@[task.lower_level - 1].1@);
                ctrl.apply_compaction_result(snapshot, task, output, in_recovery)
            },
            (CompactionController::Simple(ctrl), CompactionTask::Simple(task)) => {
                ctrl.apply_compaction_result(snapshot, task, output)
            },
            (CompactionController::Tiered(ctrl), CompactionTask::Tiered(task)) => {
                ctrl.apply_compaction_result(snapshot, task, output)
            },
            _ => (snapshot.duplicate(), Vec::new()),
        }
    }

    /// Whether memtables are flushed to level 0: they are but with tiered
    /// compaction, where a flushed memtable is a tier of its own.
    pub fn flush_to_l0(&self) -> (r: bool)
        ensures
            r == !(self is Tiered),
    {
        match self {
            CompactionController::Leveled(_) | CompactionController::Simple(_)
            | CompactionController::NoCompaction => true,
            CompactionController::Tiered(_) => false,
        }
    }
}

/// How the store is compacted.
#[derive(Debug, Clone, Copy, PartialEq, Eq, Structural)]
pub enum CompactionOptions {
    /// Leveled compaction with dynamic level sizes.
    Leveled(LeveledCompactionOptions),
    /// Tiered compaction.
    Tiered(TieredCompactionOptions),
    /// Simple leveled compaction.
    Simple(SimpleLeveledCompactionOptions),
    /// No compaction: memtables are flushed to level 0, and stay there.
    NoCompaction,
}

/// The members of `ids` that are not in `remove`, in their order.
pub open spec fn without(ids: Seq<usize>, remove: Seq<usize>) -> Seq<usize>
    decreases ids.len(),
{
    if ids.len() == 0 {
        Seq::empty()
    } else {
        without(ids.drop_last(), remove) + if remove.contains(ids.last()) {
            Seq::<usize>::empty()
        } else {
            seq![ids.last()]
        }
    }
}

/// The members of `ids` that are in `keep`, in their order.
pub open spec fn only(ids: Seq<usize>, keep: Seq<usize>) -> Seq<usize>
    decreases ids.len(),
{
    if ids.len() == 0 {
        Seq::empty()
    } else {
        only(ids.drop_last(), keep) + if keep.contains(ids.last()) {
            seq![ids.last()]
        } else {
            Seq::<usize>::empty()
        }
    }
}

/// Whether `id` is a member of `ids`.
pub fn contains_id(ids: &Vec<usize>, id: usize) -> (r: bool)
    ensures
        r == ids@.contains(id),
{
    let mut i: usize = 0;
    while i < ids.len()
        invariant
            i <= ids@.len(),
            forall|j: int| 0 <= j < i ==> ids@[j] != id,
        decreases ids@.len() - i,
    {
        if ids[i] == id {
            return true;
        }
        i += 1;
    }
    false
}

/// Parts `ids` into those that are not in `remove` and those that are, each
/// in their order.
pub fn split_ids(ids: &Vec<usize>, remove: &Vec<usize>) -> (r: (Vec<usize>, Vec<usize>))
    ensures
        r.0@ == without(ids@, remove@),
        r.1@ == only(ids@, remove@),
{
    let mut leaving: HashSet<usize> = HashSet::new();
    let mut j: usize = 0;
    while j < remove.len()
        invariant
            j <= remove@.len(),
            forall|id: usize| leaving@.contains(id) <==> remove@.take(j as int).contains(id),
        decreases remove@.len() - j,
    {
        let ghost before = remove@.take(j as int);
        leaving.insert(remove[j]);
        proof {
            let now = remove@.take(j + 1);
            assert(now =~= before.push(remove@[j as int]));
            assert forall|id: usize| leaving@.contains(id) <==> now.contains(id) by {
                if before.contains(id) {
                    let x = choose|x: int| 0 <= x < before.len() && before[x] == id;
                    assert(now[x] == id);
                }
                if id == remove@[j as int] {
                    assert(now[j as int] == id);
                }
            }
        }
        j += 1;
    }
    assert(remove@.take(remove@.len() as int) =~= remove@);
    let mut retained: Vec<usize> = Vec::new();
    let mut removed: Vec<usize> = Vec::new();
    let mut i: usize = 0;
    while i < ids.len()
        invariant
            i <= ids@.len(),
            forall|id: usize| leaving@.contains(id) <==> remove@.contains(id),
            retained@ == without(ids@.take(i as int), remove@),
            removed@ == only(ids@.take(i as int), remove@),
        decreases ids@.len() - i,
    {
        assert(ids@.take(i + 1).drop_last() =~= ids@.take(i as int));
        if leaving.contains(&ids[i]) {
            removed.push(ids[i]);
        } else {
            retained.push(ids[i]);
        }
        i += 1;
    }
    assert(ids@.take(ids@.len() as int) =~= ids@);
    (retained, removed)
}

/// Appends the members of `more` to `ids`.
pub fn append_ids(ids: &mut Vec<usize>, more: &[usize])
    ensures
        final(ids)@ == old(ids)@ + more@,
{
    let mut i: usize = 0;
    while i < more.len()
        invariant
            i <= more@.len(),
            ids@ == old(ids)@ + more@.take(i as int),
        decreases more@.len() - i,
    {
        ids.push(more[i]);
        assert(ids@ =~= old(ids)@ + more@.take(i + 1));
        i += 1;
    }
    assert(more@.take(more@.len() as int) =~= more@);
}

/// What the tables of a compaction hold for the key `k`, given what the
/// layers that went into it hold: the value of the first layer that holds
/// the key, and with `drop_tombstones` nothing where that is a tombstone.
pub open spec fn merged(layers: Seq<Seq<Entry>>, drop_tombstones: bool, k: Seq<u8>) -> Option<
    Seq<u8>,
> {
    if drop_tombstones {
        visible(first_some(layers, k))
    } else {
        first_some(layers, k)
    }
}

/// An iterator on each of `tables`, at its first entry.
pub(crate) fn iters_of(tables: &Vec<Arc<SsTable>>) -> (r: Vec<SsTableIterator>)
    requires
        forall|i: int| 0 <= i < tables@.len() ==> (#[trigger] tables@[i]).wf(),
    ensures
        r@.len() == tables@.len(),
        forall|i: int|
            0 <= i < r@.len() ==> (#[trigger] r@[i]).wf() && r@[i].remaining() == table_runs(
                tables@,
            )[i],
{
    let mut r: Vec<SsTableIterator> = Vec::new();
    let mut i: usize = 0;
    while i < tables.len()
        invariant
            forall|i: int| 0 <= i < tables@.len() ==> (#[trigger] tables@[i]).wf(),
            i <= tables@.len(),
            r@.len() == i,
            forall|j: int|
                0 <= j < r@.len() ==> (#[trigger] r@[j]).wf() && r@[j].remaining() == table_runs(
                    tables@,
                )[j],
        decreases tables@.len() - i,
    {
        assert(tables@[i as int].wf());
        let it = SsTableIterator::create_and_seek_to_first(share(&tables[i]));
        let ghost before = r@;
        r.push(it);
        assert forall|j: int| 0 <= j < r@.len() implies (#[trigger] r@[j]).wf() && r@[j].remaining()
            == table_runs(tables@)[j] by {
            if j < before.len() {
                assert(r@[j] == before[j]);
            }
        }
        i += 1;
    }
    r
}

impl LsmStorageState {
    /// An iterator on each of the tables with the ids `ids`, at its first
    /// entry.
    pub fn table_iters(&self, ids: &Vec<usize>) -> (r: Vec<SsTableIterator>)
        requires
            self.ids_present(ids@),
            forall|i: int| 0 <= i < ids@.len() ==> (#[trigger] self.tables_of(ids@)[i]).wf(),
        ensures
            r@.len() == ids@.len(),
            forall|i: int|
                0 <= i < r@.len() ==> (#[trigger] r@[i]).wf() && r@[i].remaining() == table_runs(
                    self.tables_of(ids@),
                )[i],
    {
        let tables = self.tables(ids);
        iters_of(&tables)
    }

    /// Whether no level from index `from` on holds a table.
    pub fn levels_empty_from(&self, from: usize) -> (r: bool)
        ensures
            r == (forall|j: int| from <= j < self.levels@.len() ==> (#[trigger] self.levels@[j]).1@.len() == 0),
    {
        let mut j: usize = from;
        while j < self.levels.len()
            invariant
                from <= j,
                forall|x: int| from <= x < j && x < self.levels@.len() ==> (#[trigger] self.levels@[x]).1@.len() == 0,
            decreases self.levels@.len() - j,
        {
            if self.levels[j].1.len() > 0 {
                return false;
            }
            j += 1;
        }
        true
    }
}

impl LsmStorageState {
    /// The layers that a compaction of level 0 (with `with_l0`) and of the
    /// levels from index `from` up to index `to` reads, the newest first.
    pub open spec fn input_layers(&self, with_l0: bool, from: int, to: int) -> Seq<Seq<Entry>> {
        (if with_l0 {
            self.l0_runs()
        } else {
            Seq::empty()
        }) + self.level_runs().subrange(from, to)
    }

    /// The ids of the tables that such a compaction reads.
    pub open spec fn input_ids(&self, with_l0: bool, from: int, to: int) -> Seq<usize> {
        (if with_l0 {
            self.l0_sstables@
        } else {
            Seq::empty()
        }) + all_ids(levels_view(self.levels@).subrange(from, to))
    }

    /// An iterator on each level from index `from` up to index `to`, at its
    /// first entry.
    fn range_iters(&self, from: usize, to: usize) -> (r: Vec<SstConcatIterator>)
        requires
            self.wf(),
            from <= to <= self.levels@.len(),
        ensures
            r@.len() == to - from,
            forall|i: int|
                0 <= i < r@.len() ==> (#[trigger] r@[i]).wf() && r@[i].remaining()
                    == self.level_runs().subrange(from as int, to as int)[i],
    {
        let ghost runs = self.level_runs().subrange(from as int, to as int);
        let mut r: Vec<SstConcatIterator> = Vec::new();
        let mut j: usize = from;
        while j < to
            invariant
                self.wf(),
                from <= j <= to <= self.levels@.len(),
                runs == self.level_runs().subrange(from as int, to as int),
                r@.len() == j - from,
                forall|i: int| 0 <= i < r@.len() ==> (#[trigger] r@[i]).wf() && r@[i].remaining()
                    == runs[i],
            decreases to - j,
        {
            assert(self.ids_present(self.levels@[j as int].1@));
            assert(tables_ordered(self.tables_of(self.levels@[j as int].1@)));
            let tables = self.tables(&self.levels[j].1);
            let it = SstConcatIterator::create_and_seek_to_first(tables);
            assert(runs[j - from] == it.all_entries());
            let ghost before = r@;
            r.push(it);
            assert forall|i: int| 0 <= i < r@.len() implies (#[trigger] r@[i]).wf() && r@[i].remaining()
                == runs[i] by {
                if i < before.len() {
                    assert(r@[i] == before[i]);
                }
            }
            j += 1;
        }
        r
    }

    /// The ids of the tables that a compaction of level 0 (with `with_l0`)
    /// and of the levels from index `from` up to index `to` reads.
    fn range_ids(&self, with_l0: bool, from: usize, to: usize) -> (r: Vec<usize>)
        requires
            from <= to <= self.levels@.len(),
        ensures
            r@ == self.input_ids(with_l0, from as int, to as int),
    {
        let ghost tiers = levels_view(self.levels@).subrange(from as int, to as int);
        let mut r: Vec<usize> = if with_l0 {
            copy_ids(&self.l0_sstables)
        } else {
            Vec::new()
        };
        let ghost head = r@;
        let mut j: usize = from;
        assert(tiers.take(0) =~= Seq::<(usize, Seq<usize>)>::empty());
        while j < to
            invariant
                from <= j <= to <= self.levels@.len(),
                tiers == levels_view(self.levels@).subrange(from as int, to as int),
                r@ == head + all_ids(tiers.take(j - from)),
            decreases to - j,
        {
            assert(tiers.take(j - from + 1).drop_last() =~= tiers.take(j - from));
            assert(tiers.take(j - from + 1).last() == tiers[j - from]);
            assert(tiers[j - from].1 == self.levels@[j as int].1@);
            append_ids(&mut r, self.levels[j].1.as_slice());
            assert(r@ =~= head + all_ids(tiers.take(j - from + 1)));
            j += 1;
        }
        assert(tiers.take(to - from) =~= tiers);
        r
    }
}

/// Whether the tiers `part` are the first of the tiers `all`.
fn begins_tiers(part: &Vec<(usize, Vec<usize>)>, all: &Vec<(usize, Vec<usize>)>) -> (r: bool)
    requires
        part@.len() <= all@.len(),
    ensures
        r == (levels_view(part@) == levels_view(all@).take(part@.len() as int)),
{
    let ghost mine = levels_view(part@);
    let ghost tiers = levels_view(all@);
    let m = part.len();
    assert(mine.len() == m && tiers.len() == all@.len());
    let mut i: usize = 0;
    while i < m
        invariant
            i <= m,
            m == part@.len(),
            m <= all@.len(),
            tiers == levels_view(all@),
            mine == levels_view(part@),
            forall|x: int| 0 <= x < i ==> mine[x] == tiers[x],
        decreases m - i,
    {
        assert(mine[i as int] == (part@[i as int].0, part@[i as int].1@));
        assert(tiers[i as int] == (all@[i as int].0, all@[i as int].1@));
        if part[i].0 != all[i].0 || !same_ids(&part[i].1, &all[i].1) {
            assert(mine[i as int] != tiers.take(m as int)[i as int]);
            return false;
        }
        i += 1;
    }
    assert(mine =~= tiers.take(m as int));
    true
}

impl LsmStorageState {
    /// Whether the task can be carried out in this state.
    pub fn can_compact(&self, task: &CompactionTask) -> (r: bool)
        requires
            self.wf(),
        ensures
            r == self.compactable(task),
    {
        let ghost tiers = levels_view(self.levels@);
        let n = self.levels.len();
        assert(tiers.len() == n);
        match task {
            CompactionTask::Leveled(t) => self.plan_of(t).is_some(),
            CompactionTask::ForceFullCompaction { sstables } => {
                if n == 0 {
                    return false;
                }
                assert(tiers[0].1 == self.levels@[0].1@);
                let mut all = copy_ids(&self.l0_sstables);
                append_ids(&mut all, self.levels[0].1.as_slice());
                same_ids(sstables, &all)
            },
            CompactionTask::Simple(t) => match t.upper_level {
                None => {
                    if n == 0 || t.lower_level != 1 {
                        return false;
                    }
                    assert(tiers[0].1 == self.levels@[0].1@);
                    same_ids(&t.upper_level_sst_ids, &self.l0_sstables) && same_ids(
                        &t.lower_level_sst_ids,
                        &self.levels[0].1,
                    )
                },
                Some(u) => {
                    if u < 1 || u >= n || t.lower_level != u + 1 {
                        return false;
                    }
                    assert(tiers[u - 1].1 == self.levels@[u - 1].1@);
                    assert(tiers[u as int].1 == self.levels@[u as int].1@);
                    same_ids(&t.upper_level_sst_ids, &self.levels[u - 1].1) && same_ids(
                        &t.lower_level_sst_ids,
                        &self.levels[u].1,
                    )
                },
            },
            CompactionTask::Tiered(t) => {
                let m = t.tiers.len();
                if m < 1 || m > n {
                    return false;
                }
                begins_tiers(&t.tiers, &self.levels)
            },
        }
    }

    /// Whether no level from index `from` on holds a table.
    pub open spec fn empty_from(&self, from: int) -> bool {
        forall|j: int| from <= j < self.levels@.len() ==> (#[trigger] self.levels@[j]).1@.len() == 0
    }

    /// The entries of level 0 (with `with_l0`) and of the levels from index
    /// `from` up to index `to`, merged: an entry of level 0 comes before
    /// one of a level, a newer table of level 0 before an older one, and a
    /// level before the levels below it.
    pub open spec fn range_entries(&self, with_l0: bool, from: int, to: int) -> Seq<Entry> {
        merge2(
            merge_all(
                if with_l0 {
                    self.l0_runs()
                } else {
                    Seq::<Seq<Entry>>::empty()
                },
            ),
            merge_all(self.level_runs().subrange(from, to)),
        )
    }
}

impl LsmStorageInner {
    /// Whether the entries `es` can be written to new tables of this
    /// store.
    pub open(crate) spec fn can_write(&self, es: Seq<Entry>) -> bool {
        writable(
            es,
            self.options.block_size as int,
            self.options.target_sst_size as int,
            self.next_sst_id as int,
        )
    }

    /// The entries of each table to which this store writes the entries
    /// `es`.
    pub open(crate) spec fn split(&self, es: Seq<Entry>) -> Seq<Seq<Entry>> {
        tables_split(es, self.options.block_size as int, self.options.target_sst_size as int)
    }

    /// What a compaction of level 0 (with `with_l0`) and of the levels
    /// from index `from` up to index `to` writes: their entries, without
    /// the tombstones where the compaction reaches the last level
    /// (`bottom`) and no level further down holds a table.
    pub open(crate) spec fn range_output(&self, with_l0: bool, from: int, to: int, bottom: bool) -> Seq<
        Entry,
    > {
        kept(self.state.range_entries(with_l0, from, to), bottom && self.state.empty_from(to))
    }

    /// Merges the tables of level 0 (with `with_l0`) and of the levels from
    /// index `from` up to index `to` into new tables of a target size: the
    /// tables of level 0 are merged, as they may overlap, and each level is
    /// read as one run. With `drop_tombstones`, tombstones are left out.
    fn compact_range(&mut self, with_l0: bool, from: usize, to: usize, drop_tombstones: bool) -> (r:
        Result<Vec<Arc<SsTable>>, Error>)
        requires
            old(self).wf(),
            from <= to <= old(self).state.levels@.len(),
        ensures
            final(self).wf(),
            final(self).state == old(self).state,
            final(self).options == old(self).options,
            final(self).compaction_controller == old(self).compaction_controller,
            final(self).next_sst_id >= old(self).next_sst_id,
            r is Ok <==> old(self).can_write(
                kept(old(self).state.range_entries(with_l0, from as int, to as int), drop_tombstones),
            ),
            r matches Err(e) ==> e == Error::TooLarge,
            r matches Ok(tables) ==> {
                &&& tables_ordered(tables@)
                &&& ids_from(tables@, old(self).next_sst_id as int)
                &&& final(self).next_sst_id == old(self).next_sst_id + tables@.len()
                &&& table_runs(tables@) == old(self).split(
                    kept(
                        old(self).state.range_entries(with_l0, from as int, to as int),
                        drop_tombstones,
                    ),
                )
                &&& forall|k: Seq<u8>|
                    #[trigger] lookup(concat_runs(table_runs(tables@)), k) == merged(
                        old(self).state.input_layers(with_l0, from as int, to as int),
                        drop_tombstones,
                        k,
                    )
            },
    {
        let ghost upper = if with_l0 {
            self.state.l0_runs()
        } else {
            Seq::<Seq<Entry>>::empty()
        };
        let ghost lower = self.state.level_runs().subrange(from as int, to as int);
        let l0_iters = if with_l0 {
            self.state.table_iters(&self.state.l0_sstables)
        } else {
            Vec::new()
        };
        let l0 = MergeIterator::create(l0_iters);
        let levels = MergeIterator::create(self.state.range_iters(from, to));
        proof {
            self.state.lemma_layers();
            assert(l0.sources() =~= upper);
            assert(levels.sources() =~= lower);
            assert forall|i: int| 0 <= i < lower.len() implies is_run(#[trigger] lower[i]) by {
                assert(is_run(self.state.level_runs()[from + i]));
            }
            lemma_merge_all(upper);
            lemma_merge_all(lower);
            lemma_merge2(merge_all(upper), merge_all(lower));
            lemma_live(merge2(merge_all(upper), merge_all(lower)));
            assert forall|k: Seq<u8>|
                lookup(merge2(merge_all(upper), merge_all(lower)), k) == first_some(
                    upper + lower,
                    k,
                ) by {
                lemma_first_some_concat(upper, lower, k);
                assert(lookup(merge_all(upper), k) == first_some(upper, k));
                assert(lookup(merge_all(lower), k) == first_some(lower, k));
            }
        }
        let iter = TwoMergeIterator::create(l0, levels);
        build_tables(
            iter,
            self.options.block_size,
            self.options.target_sst_size,
            drop_tombstones,
            &mut self.next_sst_id,
        )
    }

    /// Puts the new tables `outputs` in the place of the tables of level 0
    /// (with `with_l0`) and of the levels from index `from` up to index
    /// `to`: the levels of the store become `levels`, in which `slots`
    /// levels, of which each holds none or all of the new tables, stand in
    /// the place of those levels. The result holds the ids of the tables
    /// that were closed. A reader gets what it got before.
    fn replace_range(
        &mut self,
        with_l0: bool,
        from: usize,
        to: usize,
        levels: Vec<(usize, Vec<usize>)>,
        slots: usize,
        outputs: &Vec<Arc<SsTable>>,
        Ghost(first): Ghost<int>,
        Ghost(drop_tombstones): Ghost<bool>,
    ) -> (removed: Vec<usize>)
        requires
            old(self).wf(),
            old(self).state.replaceable(with_l0, from as int, to as int, levels@, slots as int, outputs@),
            ids_from(outputs@, first),
            forall|id: usize| old(self).state.sstables@.contains_key(id) ==> id < first,
            first + outputs@.len() <= old(self).next_sst_id,
            !(old(self).compaction_controller is Tiered) ==> levels@.len() >= 1,
            drop_tombstones ==> forall|j: int|
                to <= j < old(self).state.levels@.len() ==> (#[trigger] old(self).state.levels@[j]).1@.len()
                    == 0,
            forall|k: Seq<u8>|
                #[trigger] lookup(concat_runs(table_runs(outputs@)), k) == merged(
                    old(self).state.input_layers(with_l0, from as int, to as int),
                    drop_tombstones,
                    k,
                ),
        ensures
            final(self).wf(),
            final(self).options == old(self).options,
            final(self).next_sst_id == old(self).next_sst_id,
            final(self).compaction_controller == old(self).compaction_controller,
            final(self).state.memtable == old(self).state.memtable,
            final(self).state.imm_memtables == old(self).state.imm_memtables,
            final(self).state.levels == levels,
            final(self).state.l0_sstables@ == if with_l0 {
                Seq::<usize>::empty()
            } else {
                old(self).state.l0_sstables@
            },
            forall|k: Seq<u8>| #[trigger] final(self).state.get_spec(k) == old(self).state.get_spec(k),
            final(self).state.tables_of(ids_of(outputs@)) == outputs@,
            forall|i: int|
                0 <= i < removed@.len() ==> old(self).state.input_ids(
                    with_l0,
                    from as int,
                    to as int,
                ).contains(#[trigger] removed@[i]) && !final(self).state.table_ids().contains(
                    removed@[i],
                ),
    {
        let ghost before = self.state;
        let candidates = self.state.range_ids(with_l0, from, to);
        let l0 = if with_l0 {
            Vec::new()
        } else {
            copy_ids(&self.state.l0_sstables)
        };
        proof {
            before.lemma_replaced_lists(
                with_l0,
                from as int,
                to as int,
                levels@,
                slots as int,
                outputs@,
                first,
            );
        }
        let removed = self.install(l0, levels, outputs, &candidates, Ghost(first));
        proof {
            lemma_installed(before.sstables@, self.state, outputs@, first);
            before.lemma_replaced_content(
                self.state,
                with_l0,
                from as int,
                to as int,
                slots as int,
                outputs@,
                first,
                drop_tombstones,
            );
        }
        removed
    }

    /// Whether this store has become `after` by writing the entries `out`
    /// to the new tables `outputs`: the tables have the next ids, hold the
    /// entries as they are split into tables, and are open in `after`.
    pub open(crate) spec fn wrote(&self, after: Self, out: Seq<Entry>, outputs: Seq<Arc<SsTable>>) -> bool {
        &&& ids_from(outputs, self.next_sst_id as int)
        &&& table_runs(outputs) == self.split(out)
        &&& after.state.tables_of(ids_of(outputs)) == outputs
        &&& after.next_sst_id == self.next_sst_id + outputs.len()
    }

    /// What a compaction of a task of simple leveled compaction writes.
    pub open(crate) spec fn simple_output(&self, t: SimpleLeveledCompactionTaskView) -> Seq<Entry> {
        match t.upper_level {
            None => self.range_output(true, 0, 1, t.is_lower_level_bottom_level),
            Some(u) => self.range_output(false, u - 1, u + 1, t.is_lower_level_bottom_level),
        }
    }

    /// What a compaction of a task of tiered compaction writes.
    pub open(crate) spec fn tiered_output(&self, t: TieredCompactionTaskView) -> Seq<Entry> {
        self.range_output(false, 0, t.tiers.len() as int, t.bottom_tier_included)
    }

    /// What a compaction of the task writes: the entries of its levels,
    /// merged, without the tombstones where the task drops them.
    pub open(crate) spec fn task_output(&self, task: &CompactionTask) -> Seq<Entry> {
        kept(self.state.task_entries(task), self.state.drops(task))
    }

    /// Merges the tables of the task into new tables of a target size. The
    /// task must name whole levels of the store: all tables of level 0 and
    /// of the first level below, or all tables of two levels that follow
    /// each other, or the tiers at the top; a task of leveled compaction
    /// must have a plan in the store. Else it is `Stale`. Tombstones are
    /// dropped where the task reaches the last level and no level further
    /// down holds a table. The state does not change.
    pub fn compact(&mut self, task: &CompactionTask) -> (r: Result<Vec<Arc<SsTable>>, Error>)
        requires
            old(self).wf(),
        ensures
            final(self).wf(),
            final(self).state_spec() == old(self).state_spec(),
            final(self).options_spec() == old(self).options_spec(),
            final(self).next_id() >= old(self).next_id(),
            r is Ok <==> old(self).state_spec().compactable(task) && old(self).can_write(
                old(self).task_output(task),
            ),
            r matches Err(e) ==> e == if old(self).state_spec().compactable(task) {
                Error::TooLarge
            } else {
                Error::Stale
            },
            r matches Ok(tables) ==> {
                &&& tables_ordered(tables@)
                &&& ids_from(tables@, old(self).next_id() as int)
                &&& final(self).next_id() == old(self).next_id() + tables@.len()
                &&& table_runs(tables@) == old(self).split(old(self).task_output(task))
                &&& forall|k: Seq<u8>|
                    #[trigger] lookup(concat_runs(table_runs(tables@)), k) == merged(
                        old(self).state_spec().task_layers(task),
                        old(self).state_spec().drops(task),
                        k,
                    )
                &&& old(self).due(task) ==> final(self).prepared(
                    task,
                    tables@,
                    old(self).next_id() as int,
                )
            },
    {
        if !self.state.can_compact(task) {
            return Err(Error::Stale);
        }
        match task {
            CompactionTask::Leveled(t) => match self.state.plan_of(t) {
                Some(plan) => self.merge_plan(plan, t.is_lower_level_bottom_level),
                None => Ok(Vec::new()),
            },
            _ => {
                let (with_l0, from, to) = range_of(task);
                let drop_tombstones = task.compact_to_bottom_level()
                    && self.state.levels_empty_from(to);
                self.compact_range(with_l0, from, to, drop_tombstones)
            },
        }
    }

    /// Whether the task is the one that the controller of this store calls
    /// for, and can be carried out: a task of leveled compaction has a
    /// plan.
    pub open(crate) spec fn due(&self, task: &CompactionTask) -> bool {
        match self.compaction_controller {
            CompactionController::Simple(ctrl) => task matches CompactionTask::Simple(t)
                && crate::compact::simple_leveled::simple_task(
                ctrl.options_spec(),
                self.state.l0_sstables@,
                levels_view(self.state.levels@),
            ) == Some(t@),
            CompactionController::Tiered(ctrl) => task matches CompactionTask::Tiered(t)
                && crate::compact::tiered::tiered_task(
                ctrl.options_spec(),
                levels_view(self.state.levels@),
            ) == Some(t@),
            CompactionController::Leveled(ctrl) => task matches CompactionTask::Leveled(t)
                && crate::compact::leveled::leveled_task(
                ctrl.options_spec(),
                self.state.l0_sstables@,
                levels_view(self.state.levels@),
                self.state.sstables@,
            ) == Some(t@) && self.state.plan_spec(t@) is Some,
            CompactionController::NoCompaction => false,
        }
    }

    /// Whether the tables `outputs`, with the ids from `first` on, hold
    /// what a compaction of the task writes in this store, and their ids
    /// are new to it.
    pub open(crate) spec fn prepared(
        &self,
        task: &CompactionTask,
        outputs: Seq<Arc<SsTable>>,
        first: int,
    ) -> bool {
        &&& self.due(task)
        &&& tables_ordered(outputs)
        &&& ids_from(outputs, first)
        &&& first + outputs.len() <= usize::MAX
        &&& forall|id: usize| self.state.sstables@.contains_key(id) ==> id < first
        &&& forall|k: Seq<u8>|
            #[trigger] lookup(concat_runs(table_runs(outputs)), k) == merged(
                self.state.task_layers(task),
                self.state.drops(task),
                k,
            )
    }

    /// Whether the lists of ids of `after` are those that the controller
    /// gives for the result `outputs` of the task in this store, with
    /// `removed` for the ids that left.
    pub open(crate) spec fn installed(
        &self,
        after: Self,
        task: &CompactionTask,
        outputs: Seq<Arc<SsTable>>,
        removed: Seq<usize>,
    ) -> bool {
        match task {
            CompactionTask::Leveled(t) => crate::compact::leveled::applied(
                self.state.l0_sstables@,
                levels_view(self.state.levels@),
                add_tables(self.state.sstables@, outputs),
                t@,
                ids_of(outputs),
                false,
                after.state.l0_sstables@,
                levels_view(after.state.levels@),
                removed,
            ),
            CompactionTask::Simple(t) => crate::compact::simple_leveled::applied(
                self.state.l0_sstables@,
                levels_view(self.state.levels@),
                t@,
                ids_of(outputs),
                after.state.l0_sstables@,
                levels_view(after.state.levels@),
                removed,
            ),
            CompactionTask::Tiered(t) => crate::compact::tiered::applied(
                self.state.l0_sstables@,
                levels_view(self.state.levels@),
                t@,
                ids_of(outputs),
                after.state.l0_sstables@,
                levels_view(after.state.levels@),
                removed,
            ),
            CompactionTask::ForceFullCompaction { .. } => false,
        }
    }

    /// Puts the new tables `outputs` of a task of simple leveled or tiered
    /// compaction in the place of the tables of the task, as the
    /// controller says. The result holds the ids of the tables that left.
    fn place(
        &mut self,
        task: &CompactionTask,
        outputs: &Vec<Arc<SsTable>>,
        Ghost(first): Ghost<int>,
        Ghost(drop_tombstones): Ghost<bool>,
    ) -> (gone: Vec<usize>)
        requires
            old(self).wf(),
            old(self).due(task),
            !(task is Leveled),
            drop_tombstones == old(self).state.drops(task),
            tables_ordered(outputs@),
            ids_from(outputs@, first),
            forall|id: usize| old(self).state.sstables@.contains_key(id) ==> id < first,
            first + outputs@.len() <= old(self).next_sst_id,
            forall|k: Seq<u8>|
                #[trigger] lookup(concat_runs(table_runs(outputs@)), k) == merged(
                    old(self).state.input_layers(
                        task_range(task).0,
                        task_range(task).1,
                        task_range(task).2,
                    ),
                    drop_tombstones,
                    k,
                ),
        ensures
            final(self).wf(),
            final(self).options == old(self).options,
            final(self).compaction_controller == old(self).compaction_controller,
            final(self).next_sst_id == old(self).next_sst_id,
            final(self).state.memtable == old(self).state.memtable,
            final(self).state.imm_memtables == old(self).state.imm_memtables,
            forall|k: Seq<u8>| #[trigger] final(self).state.get_spec(k) == old(self).state.get_spec(k),
            final(self).state.tables_of(ids_of(outputs@)) == outputs@,
            old(self).installed(*final(self), task, outputs@, gone@),
    {
        let ghost before = self.state;
        proof {
            before.lemma_task_fits(&self.compaction_controller, task);
        }
        let (with_l0, from, to) = range_of(task);
        let output = table_ids_of(outputs);
        let (snapshot, gone) = self.compaction_controller.apply_compaction_result(
            &self.state,
            task,
            output.as_slice(),
            false,
        );
        let ghost new_l0 = snapshot.l0_sstables@;
        let slots = match task {
            CompactionTask::Tiered(_) => if output.len() > 0 {
                1
            } else {
                0
            },
            _ => to - from,
        };
        proof {
            before.lemma_applied(task, snapshot.levels@, slots as int, outputs@);
        }
        self.replace_range(
            with_l0,
            from,
            to,
            snapshot.levels,
            slots,
            outputs,
            Ghost(first),
            Ghost(drop_tombstones),
        );
        proof {
            assert(output@ == ids_of(outputs@));
            match task {
                CompactionTask::Simple(t) => {
                    if t.upper_level is None {
                        assert forall|i: int|
                            0 <= i < before.l0_sstables@.len() implies t.upper_level_sst_ids@.contains(
                            #[trigger] before.l0_sstables@[i],
                        ) by {}
                        lemma_without_all(before.l0_sstables@, t.upper_level_sst_ids@);
                        assert(new_l0 =~= Seq::<usize>::empty());
                    }
                },
                _ => {},
            }
        }
        gone
    }

    /// Whether the controller of this store calls for a task that can be
    /// carried out.
    pub open(crate) spec fn has_task(&self) -> bool {
        match self.compaction_controller {
            CompactionController::Simple(ctrl) => crate::compact::simple_leveled::simple_task(
                ctrl.options_spec(),
                self.state.l0_sstables@,
                levels_view(self.state.levels@),
            ) is Some,
            CompactionController::Tiered(ctrl) => crate::compact::tiered::tiered_task(
                ctrl.options_spec(),
                levels_view(self.state.levels@),
            ) is Some,
            CompactionController::Leveled(ctrl) => match crate::compact::leveled::leveled_task(
                ctrl.options_spec(),
                self.state.l0_sstables@,
                levels_view(self.state.levels@),
                self.state.sstables@,
            ) {
                Some(t) => self.state.plan_spec(t) is Some,
                None => false,
            },
            CompactionController::NoCompaction => false,
        }
    }

    /// The task that the controller calls for, where it can be carried
    /// out: what `trigger_compaction` would do next.
    pub fn next_compaction_task(&self) -> (r: Option<CompactionTask>)
        requires
            self.wf(),
        ensures
            r is Some <==> self.has_task(),
            r matches Some(task) ==> self.due(&task) && self.state_spec().compactable(&task),
    {
        proof {
            self.state.lemma_wf();
            assert forall|j: int| 0 <= j < self.state.levels@.len() implies present(
                self.state.sstables@,
                (#[trigger] self.state.levels@[j]).1@,
            ) by {
                assert(self.state.ids_present(self.state.levels@[j].1@));
            }
        }
        let task = match self.compaction_controller.generate_compaction_task(&self.state) {
            Some(task) => task,
            None => {
                return None;
            },
        };
        let fits = match &task {
            CompactionTask::Leveled(t) => self.state.plan_of(t).is_some(),
            _ => true,
        };
        if !fits {
            return None;
        }
        proof {
            if !(task is Leveled) {
                self.state.lemma_task_fits(&self.compaction_controller, &task);
            }
        }
        Some(task)
    }

    /// Puts the new tables `outputs`, which a compaction of the task wrote
    /// with the ids from `first` on, in the place of the tables of the
    /// task, as the controller says, and closes the tables that left. The
    /// result holds the ids of the tables that left. A reader gets what it
    /// got before.
    pub fn install_compaction(
        &mut self,
        task: &CompactionTask,
        outputs: &Vec<Arc<SsTable>>,
        first: usize,
    ) -> (removed: Vec<usize>)
        requires
            old(self).wf(),
            old(self).prepared(task, outputs@, first as int),
        ensures
            final(self).wf(),
            final(self).options_spec() == old(self).options_spec(),
            final(self).controller_spec() == old(self).controller_spec(),
            final(self).state_spec().memtable == old(self).state_spec().memtable,
            final(self).state_spec().imm_memtables@ == old(self).state_spec().imm_memtables@,
            final(self).next_id() == if old(self).next_id() >= first + outputs@.len() {
                old(self).next_id() as int
            } else {
                first + outputs@.len()
            },
            forall|k: Seq<u8>| #[trigger] final(self).get_spec(k) == old(self).get_spec(k),
            final(self).state_spec().tables_of(ids_of(outputs@)) == outputs@,
            old(self).installed(*final(self), task, outputs@, removed@),
    {
        let end = first + outputs.len();
        if self.next_sst_id < end {
            self.next_sst_id = end;
        }
        let ghost mid = *self;
        match task {
            CompactionTask::Leveled(t) => match self.state.plan_of(t) {
                Some(plan) => {
                    proof {
                        mid.state.lemma_plan_without(plan, t@);
                    }
                    self.land(plan, task, outputs, Ghost(first as int))
                },
                None => Vec::new(),
            },
            _ => {
                proof {
                    mid.state.lemma_task_fits(&mid.compaction_controller, task);
                }
                self.place(task, outputs, Ghost(first as int), Ghost(mid.state.drops(task)))
            },
        }
    }

    /// Installs in this store the result of a compaction that was carried
    /// out on a copy of it, `from`, while this store went on: the new
    /// tables `outputs` of the task, with the ids from `first` on. The two
    /// stores must still share their tables; the memtables may differ.
    /// Else it is `Stale`, and nothing has changed. The result holds the
    /// ids of the tables that left.
    pub fn install_from(
        &mut self,
        from: &Self,
        task: &CompactionTask,
        outputs: &Vec<Arc<SsTable>>,
        first: usize,
    ) -> (r: Result<Vec<usize>, Error>)
        requires
            old(self).wf(),
            from.wf(),
            from.prepared(task, outputs@, first as int),
        ensures
            final(self).wf(),
            final(self).options_spec() == old(self).options_spec(),
            final(self).controller_spec() == old(self).controller_spec(),
            final(self).state_spec().memtable == old(self).state_spec().memtable,
            final(self).state_spec().imm_memtables@ == old(self).state_spec().imm_memtables@,
            forall|k: Seq<u8>| #[trigger] final(self).get_spec(k) == old(self).get_spec(k),
            r matches Err(e) ==> e == Error::Stale && final(self).state_spec() == old(self).state_spec() && final(self).next_id() == old(self).next_id(),
            r matches Ok(removed) ==> {
                &&& old(self).options_spec() == from.options_spec()
                &&& old(self).state_spec().same_tables(from.state_spec())
                &&& old(self).installed(*final(self), task, outputs@, removed@)
                &&& final(self).state_spec().tables_of(ids_of(outputs@)) == outputs@
                &&& final(self).next_id() == if old(self).next_id() >= first + outputs@.len() {
                    old(self).next_id() as int
                } else {
                    first + outputs@.len()
                }
            },
    {
        if !(self.options == from.options) {
            return Err(Error::Stale);
        }
        if !self.state.shares_tables(&from.state) {
            return Err(Error::Stale);
        }
        proof {
            self.lemma_prepared_elsewhere(*from, task, outputs@, first as int);
        }
        Ok(self.install_compaction(task, outputs, first))
    }

    /// What is prepared for a store is prepared for every store with the
    /// same options and the same tables: the memtables play no part.
    pub proof fn lemma_prepared_elsewhere(
        &self,
        from: Self,
        task: &CompactionTask,
        outputs: Seq<Arc<SsTable>>,
        first: int,
    )
        requires
            self.wf(),
            from.wf(),
            self.options_spec() == from.options_spec(),
            self.state_spec().same_tables(from.state_spec()),
            from.prepared(task, outputs, first),
        ensures
            self.prepared(task, outputs, first),
    {
        self.state.lemma_same_parts(from.state);
        match task {
            CompactionTask::Leveled(t) => {
                from.state.lemma_same_plan(self.state, t@);
            },
            _ => {
                from.state.lemma_task_fits(&from.compaction_controller, task);
            },
        }
        assert(self.state.task_layers(task) =~= from.state.task_layers(task));
        let down: int = match task {
            CompactionTask::Leveled(t) => t.lower_level as int,
            _ => task_range(task).2,
        };
        let n = self.state.levels@.len() as int;
        self.state.lemma_same_empty(from.state, down, n);
        assert(self.state.empty_from(down) == self.state.empty_between(down, n));
        assert(from.state.empty_from(down) == from.state.empty_between(down, n));
        assert(self.state.drops(task) == from.state.drops(task));
    }

    /// Asks the controller for a task, carries it out and installs the
    /// result: the new tables stand in the place of the tables of the task,
    /// which are closed. A reader gets what it got before. Where the
    /// controller has no task, nothing is done. A task of leveled
    /// compaction is carried out where its tables stand in the store as
    /// `plan_spec` says, and else nothing is done: a task that moves a
    /// table of a level down always has a plan, and one that moves the
    /// tables of level 0 down has one where no level above the level that
    /// takes them holds a table (`lemma_task_has_plan`). Where the ids run
    /// out or a table would exceed the file format, it is `TooLarge`, and
    /// the state has not changed.
    pub fn trigger_compaction(&mut self) -> (r: Result<(), Error>)
        requires
            old(self).wf(),
        ensures
            final(self).wf(),
            final(self).options_spec() == old(self).options_spec(),
            final(self).controller_spec() == old(self).controller_spec(),
            final(self).state_spec().memtable == old(self).state_spec().memtable,
            final(self).state_spec().imm_memtables@ == old(self).state_spec().imm_memtables@,
            forall|k: Seq<u8>| #[trigger] final(self).get_spec(k) == old(self).get_spec(k),
            r matches Err(e) ==> e == Error::TooLarge && final(self).state_spec() == old(self).state_spec(),
            old(self).controller_spec() is NoCompaction ==> r is Ok && final(self).state_spec()
                == old(self).state_spec(),
            old(self).controller_spec() matches CompactionController::Leveled(ctrl)
                ==> match crate::compact::leveled::leveled_task(
                ctrl.options_spec(),
                old(self).state_spec().l0_sstables@,
                levels_view(old(self).state_spec().levels@),
                old(self).state_spec().sstables@,
            ) {
                Some(t) => match old(self).state_spec().plan_spec(t) {
                    Some(plan) => {
                        &&& r is Ok <==> old(self).can_write(
                            old(self).plan_output(plan, t.is_lower_level_bottom_level),
                        )
                        &&& r is Ok ==> exists|outputs: Seq<Arc<SsTable>>, removed: Seq<usize>|
                            #[trigger] crate::compact::leveled::applied(
                                old(self).state_spec().l0_sstables@,
                                levels_view(old(self).state_spec().levels@),
                                add_tables(old(self).state_spec().sstables@, outputs),
                                t,
                                ids_of(outputs),
                                false,
                                final(self).state_spec().l0_sstables@,
                                levels_view(final(self).state_spec().levels@),
                                removed,
                            ) && old(self).wrote(
                                *final(self),
                                old(self).plan_output(plan, t.is_lower_level_bottom_level),
                                outputs,
                            )
                    },
                    None => r is Ok && final(self).state_spec() == old(self).state_spec(),
                },
                None => r is Ok && final(self).state_spec() == old(self).state_spec(),
            },
            old(self).controller_spec() matches CompactionController::Simple(ctrl)
                ==> match crate::compact::simple_leveled::simple_task(
                ctrl.options_spec(),
                old(self).state_spec().l0_sstables@,
                levels_view(old(self).state_spec().levels@),
            ) {
                Some(t) => {
                    &&& r is Ok <==> old(self).can_write(old(self).simple_output(t))
                    &&& r is Ok ==> exists|outputs: Seq<Arc<SsTable>>, removed: Seq<usize>|
                        #[trigger] crate::compact::simple_leveled::applied(
                            old(self).state_spec().l0_sstables@,
                            levels_view(old(self).state_spec().levels@),
                            t,
                            ids_of(outputs),
                            final(self).state_spec().l0_sstables@,
                            levels_view(final(self).state_spec().levels@),
                            removed,
                        ) && old(self).wrote(*final(self), old(self).simple_output(t), outputs)
                },
                None => r is Ok && final(self).state_spec() == old(self).state_spec(),
            },
            old(self).controller_spec() matches CompactionController::Tiered(ctrl)
                ==> match crate::compact::tiered::tiered_task(
                ctrl.options_spec(),
                levels_view(old(self).state_spec().levels@),
            ) {
                Some(t) => {
                    &&& r is Ok <==> old(self).can_write(old(self).tiered_output(t))
                    &&& r is Ok ==> exists|outputs: Seq<Arc<SsTable>>, removed: Seq<usize>|
                        #[trigger] crate::compact::tiered::applied(
                            old(self).state_spec().l0_sstables@,
                            levels_view(old(self).state_spec().levels@),
                            t,
                            ids_of(outputs),
                            final(self).state_spec().l0_sstables@,
                            levels_view(final(self).state_spec().levels@),
                            removed,
                        ) && old(self).wrote(*final(self), old(self).tiered_output(t), outputs)
                },
                None => r is Ok && final(self).state_spec() == old(self).state_spec(),
            },
    {
        proof {
            self.state.lemma_wf();
            assert forall|j: int| 0 <= j < self.state.levels@.len() implies present(
                self.state.sstables@,
                (#[trigger] self.state.levels@[j]).1@,
            ) by {
                assert(self.state.ids_present(self.state.levels@[j].1@));
            }
        }
        let task = match self.compaction_controller.generate_compaction_task(&self.state) {
            Some(task) => task,
            None => {
                return Ok(());
            },
        };
        match &task {
            CompactionTask::Leveled(t) => {
                return match self.state.plan_of(t) {
                    Some(plan) => {
                        let r = self.descend(plan, &task);
                        proof {
                            if r is Ok {
                                let (outputs, removed) = choose|
                                    outputs: Seq<Arc<SsTable>>,
                                    removed: Seq<usize>,
                                |
                                    #[trigger] old(self).landed(
                                        *self,
                                        &task,
                                        plan,
                                        outputs,
                                        removed,
                                    );
                                assert(crate::compact::leveled::applied(
                                    old(self).state_spec().l0_sstables@,
                                    levels_view(old(self).state_spec().levels@),
                                    add_tables(old(self).state_spec().sstables@, outputs),
                                    t@,
                                    ids_of(outputs),
                                    false,
                                    self.state_spec().l0_sstables@,
                                    levels_view(self.state_spec().levels@),
                                    removed,
                                ) && old(self).wrote(
                                    *self,
                                    old(self).plan_output(plan, t@.is_lower_level_bottom_level),
                                    outputs,
                                ));
                            }
                        }
                        r
                    },
                    None => Ok(()),
                };
            },
            _ => {},
        }
        let ghost before = self.state;
        let ghost tiers = levels_view(before.levels@);
        proof {
            before.lemma_task_fits(&self.compaction_controller, &task);
        }
        let (with_l0, from, to) = range_of(&task);
        let drop_tombstones = task.compact_to_bottom_level() && self.state.levels_empty_from(to);
        let ghost first = self.next_sst_id as int;
        let outputs = match self.compact_range(with_l0, from, to, drop_tombstones) {
            Ok(tables) => tables,
            Err(e) => {
                return Err(e);
            },
        };
        let gone = self.place(&task, &outputs, Ghost(first), Ghost(drop_tombstones));
        proof {
            match &task {
                CompactionTask::Simple(t) => {
                    assert(crate::compact::simple_leveled::applied(
                        old(self).state_spec().l0_sstables@,
                        levels_view(old(self).state_spec().levels@),
                        t@,
                        ids_of(outputs@),
                        self.state_spec().l0_sstables@,
                        levels_view(self.state_spec().levels@),
                        gone@,
                    ) && old(self).wrote(*self, old(self).simple_output(t@), outputs@));
                },
                CompactionTask::Tiered(t) => {
                    assert(crate::compact::tiered::applied(
                        old(self).state_spec().l0_sstables@,
                        levels_view(old(self).state_spec().levels@),
                        t@,
                        ids_of(outputs@),
                        self.state_spec().l0_sstables@,
                        levels_view(self.state_spec().levels@),
                        gone@,
                    ) && old(self).wrote(*self, old(self).tiered_output(t@), outputs@));
                },
                _ => {},
            }
        }
        Ok(())
    }

    /// Merges all tables of level 0 and of the first level below it into
    /// new tables of that level. Tombstones are dropped where no level
    /// further down holds a table. A reader gets what it got before. Where
    /// the ids run out or a table would exceed the file format, it is
    /// `TooLarge`, and the state has not changed. Where there is no level
    /// below level 0, nothing is done.
    pub fn force_full_compaction(&mut self) -> (r: Result<(), Error>)
        requires
            old(self).wf(),
        ensures
            final(self).wf(),
            final(self).options_spec() == old(self).options_spec(),
            final(self).controller_spec() == old(self).controller_spec(),
            final(self).state_spec().memtable == old(self).state_spec().memtable,
            final(self).state_spec().imm_memtables@ == old(self).state_spec().imm_memtables@,
            forall|k: Seq<u8>| #[trigger] final(self).get_spec(k) == old(self).get_spec(k),
            r is Ok <==> old(self).state_spec().levels@.len() == 0 || old(self).can_write(
                old(self).range_output(true, 0, 1, true),
            ),
            r is Ok && old(self).state_spec().levels@.len() > 0 ==> {
                &&& final(self).state_spec().l0_sstables@.len() == 0
                &&& final(self).state_spec().levels@.len() == old(self).state_spec().levels@.len()
                &&& final(self).state_spec().levels@[0].0 == 1
                &&& old(self).wrote(
                    *final(self),
                    old(self).range_output(true, 0, 1, true),
                    final(self).state_spec().tables_of(final(self).state_spec().levels@[0].1@),
                )
                &&& forall|j: int|
                    1 <= j < old(self).state_spec().levels@.len() ==> levels_view(
                        final(self).state_spec().levels@,
                    )[j] == #[trigger] levels_view(old(self).state_spec().levels@)[j]
            },
            r is Ok && old(self).state_spec().levels@.len() == 0 ==> final(self).state_spec() == old(self).state_spec(),
            r matches Err(e) ==> e == Error::TooLarge && final(self).state_spec() == old(self).state_spec(),
    {
        if self.state.levels.len() == 0 {
            return Ok(());
        }
        let ghost before = self.state;
        let drop_tombstones = self.state.levels_empty_from(1);
        let ghost first = self.next_sst_id as int;
        let compacted_ssts = match self.compact_range(true, 0, 1, drop_tombstones) {
            Ok(tables) => tables,
            Err(e) => {
                return Err(e);
            },
        };
        let new_sst_ids = table_ids_of(&compacted_ssts);
        let mut levels = copy_levels(&self.state.levels);
        let ghost copied = levels@;
        assert(levels_view(copied).len() == copied.len());
        levels[0] = (1, new_sst_ids);
        let ghost placed = levels@;
        proof {
            assert forall|j: int| 1 <= j < levels@.len() implies (#[trigger] levels@[j]).1@
                == before.levels@[j].1@ by {
                assert(levels@[j] == copied[j]);
                assert(levels_view(copied)[j] == levels_view(before.levels@)[j]);
            }
            assert(levels@[0].1@ =~= ids_of(compacted_ssts@));
            assert forall|j: int| 1 <= j < before.levels@.len() implies levels_view(placed)[j]
                == #[trigger] levels_view(before.levels@)[j] by {
                assert(placed[j] == copied[j]);
                assert(levels_view(copied)[j] == levels_view(before.levels@)[j]);
            }
        }
        self.replace_range(
            true,
            0,
            1,
            levels,
            1,
            &compacted_ssts,
            Ghost(first),
            Ghost(drop_tombstones),
        );
        proof {
            assert(self.state.levels@[0].1@ == ids_of(compacted_ssts@));
            assert(self.state.tables_of(self.state.levels@[0].1@) == compacted_ssts@);
        }
        Ok(())
    }
}

/// The levels that a task reads: whether level 0 is among them, and the
/// indices from and up to which the levels below are.
pub open spec fn task_range(task: &CompactionTask) -> (bool, int, int) {
    match task {
        CompactionTask::ForceFullCompaction { .. } => (true, 0, 1),
        CompactionTask::Simple(t) => match t.upper_level {
            None => (true, 0, 1),
            Some(u) => (false, u - 1, u + 1),
        },
        CompactionTask::Tiered(t) => (false, 0, t.tiers@.len() as int),
        CompactionTask::Leveled(_) => (false, 0, 0),
    }
}

/// The levels that a task reads.
fn range_of(task: &CompactionTask) -> (r: (bool, usize, usize))
    requires
        task matches CompactionTask::Simple(t) ==> (t.upper_level matches Some(u) ==> 1 <= u
            < usize::MAX),
    ensures
        (r.0, r.1 as int, r.2 as int) == task_range(task),
{
    match task {
        CompactionTask::ForceFullCompaction { .. } => (true, 0, 1),
        CompactionTask::Simple(t) => match t.upper_level {
            None => (true, 0, 1),
            Some(u) => (false, u - 1, u + 1),
        },
        CompactionTask::Tiered(t) => (false, 0, t.tiers.len()),
        CompactionTask::Leveled(_) => (false, 0, 0),
    }
}

impl LsmStorageState {
    /// The task names whole levels of this state: all tables of level 0
    /// and of the first level below, or all tables of two levels that
    /// follow each other, or the tiers at the top.
    pub open spec fn task_fits(&self, task: &CompactionTask) -> bool {
        let tiers = levels_view(self.levels@);
        match task {
            CompactionTask::ForceFullCompaction { sstables } => tiers.len() >= 1 && sstables@
                == self.l0_sstables@ + tiers[0].1,
            CompactionTask::Simple(t) => match t.upper_level {
                None => tiers.len() >= 1 && t.lower_level == 1 && t.upper_level_sst_ids@
                    == self.l0_sstables@ && t.lower_level_sst_ids@ == tiers[0].1,
                Some(u) => 1 <= u < tiers.len() && t.lower_level == u + 1
                    && t.upper_level_sst_ids@ == tiers[u - 1].1 && t.lower_level_sst_ids@
                    == tiers[u as int].1,
            },
            CompactionTask::Tiered(t) => 1 <= t.tiers@.len() <= tiers.len() && levels_view(
                t.tiers@,
            ) == tiers.take(t.tiers@.len() as int),
            CompactionTask::Leveled(_) => false,
        }
    }

    /// Whether a compaction of the task drops tombstones: it does where
    /// the task reaches the last level and no level further down holds a
    /// table.
    pub open spec fn drops(&self, task: &CompactionTask) -> bool {
        &&& match task {
            CompactionTask::ForceFullCompaction { .. } => true,
            CompactionTask::Leveled(t) => t.is_lower_level_bottom_level,
            CompactionTask::Simple(t) => t.is_lower_level_bottom_level,
            CompactionTask::Tiered(t) => t.bottom_tier_included,
        }
        &&& self.empty_from(
            match task {
                CompactionTask::Leveled(t) => t.lower_level as int,
                _ => task_range(task).2,
            },
        )
    }

    /// Whether the task can be carried out in this state: a task of
    /// leveled compaction has a plan, and another task names whole levels.
    pub open spec fn compactable(&self, task: &CompactionTask) -> bool {
        match task {
            CompactionTask::Leveled(t) => self.plan_spec(t@) is Some,
            _ => self.task_fits(task),
        }
    }

    /// The layers that a compaction of the task reads, the newest first.
    pub open spec fn task_layers(&self, task: &CompactionTask) -> Seq<Seq<Entry>> {
        match task {
            CompactionTask::Leveled(t) => self.plan_layers(self.plan_spec(t@).unwrap()),
            _ => self.input_layers(task_range(task).0, task_range(task).1, task_range(task).2),
        }
    }

    /// The entries that a compaction of the task reads, merged.
    pub open spec fn task_entries(&self, task: &CompactionTask) -> Seq<Entry> {
        match task {
            CompactionTask::Leveled(t) => self.plan_entries(self.plan_spec(t@).unwrap()),
            _ => self.range_entries(task_range(task).0, task_range(task).1, task_range(task).2),
        }
    }

    /// The task that a controller generates names whole levels of the
    /// state, and its result can be applied.
    pub proof fn lemma_task_fits(&self, controller: &CompactionController, task: &CompactionTask)
        requires
            !(controller is Tiered) ==> self.levels@.len() >= 1,
            match controller {
                CompactionController::Simple(ctrl) => task matches CompactionTask::Simple(t)
                    && crate::compact::simple_leveled::simple_task(
                    ctrl.options_spec(),
                    self.l0_sstables@,
                    levels_view(self.levels@),
                ) == Some(t@),
                CompactionController::Tiered(ctrl) => task matches CompactionTask::Tiered(t)
                    && crate::compact::tiered::tiered_task(
                    ctrl.options_spec(),
                    levels_view(self.levels@),
                ) == Some(t@),
                _ => false,
            },
        ensures
            self.task_fits(task),
            controller.owns(task),
            task matches CompactionTask::Simple(t) ==> crate::compact::simple_leveled::applicable(
                levels_view(self.levels@),
                t@,
            ),
            task matches CompactionTask::Tiered(t) ==> crate::compact::tiered::applicable(
                levels_view(self.levels@),
                t@,
            ),
    {
        let tiers = levels_view(self.levels@);
        match controller {
            CompactionController::Simple(ctrl) => {
                let o = ctrl.options_spec();
                crate::compact::simple_leveled::lemma_first_crowded_level(
                    tiers,
                    o.size_ratio_percent as nat,
                    o.max_levels as nat,
                    1,
                );
            },
            CompactionController::Tiered(ctrl) => {
                let o = ctrl.options_spec();
                crate::compact::tiered::lemma_first_outweighed(
                    tiers,
                    o.size_ratio as nat,
                    o.min_merge_width as nat,
                    0,
                );
                let t = task->Tiered_0;
                let m = t.tiers@.len() as int;
                assert(levels_view(t.tiers@).len() == m);
                assert(t@.tiers == levels_view(t.tiers@));
                if m < tiers.len() {
                    assert(tiers.take(m).len() == m);
                } else {
                    assert(tiers.take(tiers.len() as int) =~= tiers);
                }
                assert(levels_view(t.tiers@)[0] == tiers[0]);
                assert(tiers.subrange(0, m) =~= tiers.take(m));
            },
            _ => {},
        }
    }

    /// The levels that a controller gives for the result of a task are
    /// those of this state with new levels in the place of the levels of
    /// the task, of which each holds none or all of the new tables.
    pub proof fn lemma_applied(
        &self,
        task: &CompactionTask,
        levels: Seq<(usize, Vec<usize>)>,
        slots: int,
        outputs: Seq<Arc<SsTable>>,
    )
        requires
            self.task_fits(task),
            !(task is ForceFullCompaction),
            !(task is Leveled),
            tables_ordered(outputs),
            task matches CompactionTask::Simple(t) ==> slots == task_range(task).2 - task_range(
                task,
            ).1 && exists|l0: Seq<usize>, removed: Seq<usize>|
                crate::compact::simple_leveled::applied(
                    self.l0_sstables@,
                    levels_view(self.levels@),
                    t@,
                    ids_of(outputs),
                    l0,
                    levels_view(levels),
                    removed,
                ),
            task matches CompactionTask::Tiered(t) ==> slots == (if outputs.len() > 0 {
                1int
            } else {
                0int
            }) && exists|l0: Seq<usize>, removed: Seq<usize>|
                crate::compact::tiered::applied(
                    self.l0_sstables@,
                    levels_view(self.levels@),
                    t@,
                    ids_of(outputs),
                    l0,
                    levels_view(levels),
                    removed,
                ),
        ensures
            self.replaceable(
                task_range(task).0,
                task_range(task).1,
                task_range(task).2,
                levels,
                slots,
                outputs,
            ),
    {
        let tiers = levels_view(self.levels@);
        let new_tiers = levels_view(levels);
        let out = ids_of(outputs);
        let (with_l0, from, to) = task_range(task);
        assert(new_tiers.len() == levels.len());
        assert(tiers.len() == self.levels@.len());
        assert forall|j: int| 0 <= j < levels.len() implies new_tiers[j].1 == (
        #[trigger] levels[j]).1@ by {}
        assert forall|j: int| 0 <= j < tiers.len() implies tiers[j].1 == (
        #[trigger] self.levels@[j]).1@ by {}
        match task {
            CompactionTask::Simple(t) => {
                let lower = t.lower_level - 1;
                assert(new_tiers[lower].1 == without(tiers[lower].1, t.lower_level_sst_ids@) + out);
                assert forall|i: int| 0 <= i < tiers[lower].1.len() implies t.lower_level_sst_ids@.contains(
                    #[trigger] tiers[lower].1[i],
                ) by {}
                lemma_without_all(tiers[lower].1, t.lower_level_sst_ids@);
                assert(new_tiers[lower].1 =~= out);
                assert(levels[lower].1@ == out);
                match t.upper_level {
                    Some(u) => {
                        assert(new_tiers[u - 1].1 == without(tiers[u - 1].1, t.upper_level_sst_ids@));
                        assert forall|i: int|
                            0 <= i < tiers[u - 1].1.len() implies t.upper_level_sst_ids@.contains(
                            #[trigger] tiers[u - 1].1[i],
                        ) by {}
                        lemma_without_all(tiers[u - 1].1, t.upper_level_sst_ids@);
                        assert(levels[u - 1].1@.len() == 0);
                    },
                    None => {},
                }
                assert forall|j: int| 0 <= j < from implies (#[trigger] levels[j]).1@
                    == self.levels@[j].1@ by {
                    assert(new_tiers[j].1 == tiers[j].1);
                }
                assert forall|j: int| to <= j < self.levels@.len() implies levels[j - (to - from)
                    + slots].1@ == (#[trigger] self.levels@[j]).1@ by {
                    assert(new_tiers[j].1 == tiers[j].1);
                }
            },
            CompactionTask::Tiered(t) => {
                let m = t.tiers@.len() as int;
                assert(t@.tiers == levels_view(t.tiers@));
                assert(t@.tiers[0] == tiers[0]);
                assert(tiers.take(0) =~= Seq::<(usize, Seq<usize>)>::empty());
                if outputs.len() > 0 {
                    assert(new_tiers =~= seq![(out[0], out)] + tiers.skip(m));
                    assert(levels[0].1@ == out);
                } else {
                    assert(new_tiers =~= tiers.skip(m));
                }
                assert forall|j: int| to <= j < self.levels@.len() implies levels[j - (to - from)
                    + slots].1@ == (#[trigger] self.levels@[j]).1@ by {
                    assert(new_tiers[j - m + slots] == tiers.skip(m)[j - m]);
                }
            },
            _ => {},
        }
    }
}

/// The ids of `tables`.
pub open spec fn ids_of(tables: Seq<Arc<SsTable>>) -> Seq<usize> {
    Seq::new(tables.len(), |i: int| tables[i].id_spec())
}

/// The ids of `tables`.
pub fn table_ids_of(tables: &Vec<Arc<SsTable>>) -> (r: Vec<usize>)
    ensures
        r@ == ids_of(tables@),
{
    let mut r: Vec<usize> = Vec::new();
    let mut i: usize = 0;
    while i < tables.len()
        invariant
            i <= tables@.len(),
            r@ == ids_of(tables@).take(i as int),
        decreases tables@.len() - i,
    {
        r.push(tables[i].sst_id());
        assert(r@ =~= ids_of(tables@).take(i + 1));
        i += 1;
    }
    assert(ids_of(tables@).take(tables@.len() as int) =~= ids_of(tables@));
    r
}

/// Nothing is left of ids that are all removed.
pub proof fn lemma_without_all(ids: Seq<usize>, remove: Seq<usize>)
    requires
        forall|i: int| 0 <= i < ids.len() ==> remove.contains(#[trigger] ids[i]),
    ensures
        without(ids, remove).len() == 0,
    decreases ids.len(),
{
    if ids.len() > 0 {
        let front = ids.drop_last();
        assert forall|i: int| 0 <= i < front.len() implies remove.contains(#[trigger] front[i]) by {
            assert(ids[i] == front[i]);
        }
        lemma_without_all(front, remove);
        assert(remove.contains(ids[ids.len() - 1]));
    }
}

impl LsmStorageState {
    /// The levels `levels` are those of this state with `slots` levels in
    /// the place of the levels from index `from` up to index `to`, of which
    /// each holds none or all of the tables `outputs`, and one holds them
    /// where there are any.
    pub open spec fn replaceable(
        &self,
        with_l0: bool,
        from: int,
        to: int,
        levels: Seq<(usize, Vec<usize>)>,
        slots: int,
        outputs: Seq<Arc<SsTable>>,
    ) -> bool {
        &&& 0 <= from <= to <= self.levels@.len()
        &&& with_l0 ==> from == 0
        &&& 0 <= slots
        &&& tables_ordered(outputs)
        &&& levels.len() == self.levels@.len() - (to - from) + slots
        &&& forall|j: int| 0 <= j < from ==> (#[trigger] levels[j]).1@ == self.levels@[j].1@
        &&& forall|j: int|
            to <= j < self.levels@.len() ==> levels[j - (to - from) + slots].1@ == (
            #[trigger] self.levels@[j]).1@
        &&& forall|s: int|
            from <= s < from + slots ==> (#[trigger] levels[s]).1@.len() == 0 || levels[s].1@
                == ids_of(outputs)
        &&& outputs.len() > 0 ==> exists|s: int|
            from <= s < from + slots && (#[trigger] levels[s]).1@ == ids_of(outputs)
    }

    /// The lists of ids after a compaction name tables that can make up a
    /// store; they name every new table, and every table that the
    /// compaction did not read.
    pub proof fn lemma_replaced_lists(
        &self,
        with_l0: bool,
        from: int,
        to: int,
        levels: Seq<(usize, Vec<usize>)>,
        slots: int,
        outputs: Seq<Arc<SsTable>>,
        first: int,
    )
        requires
            self.wf(),
            self.replaceable(with_l0, from, to, levels, slots, outputs),
            ids_from(outputs, first),
            forall|id: usize| self.sstables@.contains_key(id) ==> id < first,
        ensures
            ({
                let l0 = if with_l0 {
                    Seq::<usize>::empty()
                } else {
                    self.l0_sstables@
                };
                &&& lists_ok(l0, levels_view(levels), add_tables(self.sstables@, outputs))
                &&& forall|i: int|
                    0 <= i < outputs.len() ==> (l0 + all_ids(levels_view(levels))).contains(
                        (#[trigger] outputs[i]).id_spec(),
                    )
                &&& forall|id: usize|
                    self.sstables@.contains_key(id) && !self.input_ids(with_l0, from, to).contains(
                        id,
                    ) ==> (l0 + all_ids(levels_view(levels))).contains(id)
            }),
    {
        let l0 = if with_l0 {
            Seq::<usize>::empty()
        } else {
            self.l0_sstables@
        };
        let map = add_tables(self.sstables@, outputs);
        let tiers = levels_view(levels);
        let old_tiers = levels_view(self.levels@);
        let ids = l0 + all_ids(tiers);
        let shift = slots - (to - from);
        lemma_add_tables(self.sstables@, outputs, first);
        self.lemma_wf();
        // A list of this state resolves in the new map as in the old.
        assert forall|list: Seq<usize>| #[trigger]
            present(self.sstables@, list) implies present(map, list) && resolve(map, list)
            == resolve(self.sstables@, list) by {
            assert forall|i: int| 0 <= i < list.len() implies map.contains_key(
                #[trigger] list[i],
            ) && map[list[i]] == self.sstables@[list[i]] by {
                assert(self.sstables@.contains_key(list[i]));
                assert(add_tables(self.sstables@, outputs).contains_key(list[i]));
            }
            assert(resolve(map, list) =~= resolve(self.sstables@, list));
        }
        assert(present(map, ids_of(outputs)) && resolve(map, ids_of(outputs)) =~= outputs) by {
            assert forall|i: int| 0 <= i < outputs.len() implies map.contains_key(
                #[trigger] ids_of(outputs)[i],
            ) && map[ids_of(outputs)[i]] == outputs[i] by {
                assert(map.contains_key(outputs[i].id_spec()));
            }
        }
        assert(table_runs(Seq::<Arc<SsTable>>::empty()) =~= Seq::<Seq<Entry>>::empty());
        assert forall|j: int| 0 <= j < tiers.len() implies present(map, (#[trigger] tiers[j]).1)
            && tables_ordered(resolve(map, tiers[j].1)) by {
            assert(tiers[j].1 == levels[j].1@);
            if j < from {
                assert(levels[j].1@ == self.levels@[j].1@);
                assert(old_tiers[j].1 == self.levels@[j].1@);
                assert(present(self.sstables@, old_tiers[j].1));
            } else if j < from + slots {
                if levels[j].1@.len() == 0 {
                    assert(resolve(map, tiers[j].1) =~= Seq::<Arc<SsTable>>::empty());
                }
            } else {
                let x = j - shift;
                assert(levels[x - (to - from) + slots].1@ == self.levels@[x].1@);
                assert(old_tiers[x].1 == self.levels@[x].1@);
                assert(present(self.sstables@, old_tiers[x].1));
            }
        }
        if !with_l0 {
            assert(present(self.sstables@, l0));
            assert forall|i: int| 0 <= i < l0.len() implies (#[trigger] resolve(map, l0)[i]).wf() by {
                assert(resolve(self.sstables@, l0)[i].wf());
            }
        }
        assert forall|i: int| 0 <= i < outputs.len() implies ids.contains(
            (#[trigger] outputs[i]).id_spec(),
        ) by {
            let s = choose|s: int|
                from <= s < from + slots && (#[trigger] levels[s]).1@ == ids_of(outputs);
            assert(tiers[s].1[i] == outputs[i].id_spec());
            crate::lsm_storage::lemma_all_ids_member(tiers, s, i);
            let at = choose|at: int|
                0 <= at < all_ids(tiers).len() && all_ids(tiers)[at] == tiers[s].1[i];
            assert(ids[l0.len() + at] == outputs[i].id_spec());
        }
        assert forall|id: usize|
            self.sstables@.contains_key(id) && !self.input_ids(with_l0, from, to).contains(
                id,
            ) implies ids.contains(id) by {
            let inputs = self.input_ids(with_l0, from, to);
            assert(self.table_ids().contains(id));
            let at = choose|at: int| 0 <= at < self.table_ids().len() && self.table_ids()[at] == id;
            let n0 = self.l0_sstables@.len() as int;
            if at < n0 {
                if with_l0 {
                    assert(inputs[at] == id);
                } else {
                    assert(ids[at] == id);
                }
            } else {
                crate::lsm_storage::lemma_all_ids_source(old_tiers, at - n0);
                let (x, y) = choose|x: int, y: int|
                    0 <= x < old_tiers.len() && 0 <= y < old_tiers[x].1.len() && all_ids(
                        old_tiers,
                    )[at - n0] == #[trigger] old_tiers[x].1[y];
                assert(old_tiers[x].1 == self.levels@[x].1@);
                if from <= x < to {
                    let part = old_tiers.subrange(from, to);
                    assert(part[x - from] == old_tiers[x]);
                    crate::lsm_storage::lemma_all_ids_member(part, x - from, y);
                    let w = choose|w: int|
                        0 <= w < all_ids(part).len() && all_ids(part)[w] == part[x - from].1[y];
                    let h = if with_l0 {
                        n0
                    } else {
                        0
                    };
                    assert(inputs[h + w] == id);
                } else {
                    let z = if x < from {
                        x
                    } else {
                        x + shift
                    };
                    if x >= to {
                        assert(levels[x - (to - from) + slots].1@ == self.levels@[x].1@);
                    } else {
                        assert(levels[x].1@ == self.levels@[x].1@);
                    }
                    assert(tiers[z].1 == levels[z].1@);
                    assert(tiers[z].1[y] == id);
                    crate::lsm_storage::lemma_all_ids_member(tiers, z, y);
                    let w = choose|w: int|
                        0 <= w < all_ids(tiers).len() && all_ids(tiers)[w] == tiers[z].1[y];
                    assert(ids[l0.len() + w] == id);
                }
            }
        }
    }

    /// After a compaction a reader gets what it got before.
    #[verifier::rlimit(60)]
    pub proof fn lemma_replaced_content(
        &self,
        other: LsmStorageState,
        with_l0: bool,
        from: int,
        to: int,
        slots: int,
        outputs: Seq<Arc<SsTable>>,
        first: int,
        drop_tombstones: bool,
    )
        requires
            self.wf(),
            other.wf(),
            self.replaceable(with_l0, from, to, other.levels@, slots, outputs),
            other.memtable == self.memtable,
            other.imm_memtables == self.imm_memtables,
            other.l0_sstables@ == if with_l0 {
                Seq::<usize>::empty()
            } else {
                self.l0_sstables@
            },
            ids_from(outputs, first),
            forall|id: usize| self.sstables@.contains_key(id) ==> id < first,
            forall|id: usize|
                #[trigger] other.table_ids().contains(id) ==> other.sstables@.contains_key(id)
                    && other.sstables@[id] == add_tables(self.sstables@, outputs)[id],
            drop_tombstones ==> forall|j: int|
                to <= j < self.levels@.len() ==> (#[trigger] self.levels@[j]).1@.len() == 0,
            forall|k: Seq<u8>|
                #[trigger] lookup(concat_runs(table_runs(outputs)), k) == merged(
                    self.input_layers(with_l0, from, to),
                    drop_tombstones,
                    k,
                ),
        ensures
            forall|k: Seq<u8>| #[trigger] other.get_spec(k) == self.get_spec(k),
    {
        let map = add_tables(self.sstables@, outputs);
        lemma_add_tables(self.sstables@, outputs, first);
        other.lemma_table_ids();
        let x = concat_runs(table_runs(outputs));
        let shift = slots - (to - from);
        let runs = self.level_runs();
        let new_runs = other.level_runs();
        let s = runs.skip(to);
        let mid = self.input_layers(with_l0, from, to);
        let new_mid = new_runs.subrange(from, from + slots);
        // A list of this state that the new state names resolves as before.
        assert forall|j: int, list: Seq<usize>|
            0 <= j < other.levels@.len() && list == (#[trigger] other.levels@[j]).1@
                && #[trigger] self.ids_present(list) implies other.tables_of(list)
            == self.tables_of(list) by {
            assert forall|i: int| 0 <= i < list.len() implies other.sstables@[#[trigger] list[i]]
                == self.sstables@[list[i]] by {
                assert(other.levels@[j].1@[i] == list[i]);
                assert(other.table_ids().contains(other.levels@[j].1@[i]));
                assert(self.sstables@.contains_key(list[i]));
                assert(add_tables(self.sstables@, outputs).contains_key(list[i]));
            }
            other.lemma_same_tables(*self, list);
        }
        assert forall|j: int| 0 <= j < from implies new_runs[j] == runs[j] by {
            assert(other.levels@[j].1@ == self.levels@[j].1@);
            assert(self.ids_present(self.levels@[j].1@));
        }
        assert forall|j: int| to <= j < self.levels@.len() implies new_runs[j + shift]
            == runs[j] by {
            assert(other.levels@[j - (to - from) + slots].1@ == self.levels@[j].1@);
            assert(self.ids_present(self.levels@[j].1@));
        }
        // Each new level in the place of the old ones is empty, or holds
        // the new tables.
        assert forall|t: int| 0 <= t < slots implies (#[trigger] new_mid[t]).len() == 0
            || new_mid[t] == x by {
            let list = other.levels@[from + t].1@;
            if list.len() == 0 {
                assert(table_runs(other.tables_of(list)) =~= Seq::<Seq<Entry>>::empty());
            } else {
                assert(list == ids_of(outputs));
                assert forall|i: int| 0 <= i < outputs.len() implies other.sstables@[
                    #[trigger] list[i]] == outputs[i] by {
                    assert(other.levels@[from + t].1@[i] == list[i]);
                    assert(other.table_ids().contains(other.levels@[from + t].1@[i]));
                    assert(map[outputs[i].id_spec()] == outputs[i]);
                }
                assert(other.tables_of(list) =~= outputs);
            }
        }
        if outputs.len() == 0 {
            assert(table_runs(outputs) =~= Seq::<Seq<Entry>>::empty());
            assert(x.len() == 0);
        }
        let witness = if outputs.len() > 0 {
            choose|w: int| from <= w < from + slots && (#[trigger] other.levels@[w]).1@ == ids_of(outputs)
        } else {
            from
        };
        if outputs.len() > 0 {
            assert(new_mid[witness - from] == new_runs[witness]);
            assert(other.levels@[witness].1@.len() > 0);
            assert(new_mid[witness - from] == x);
        }
        if drop_tombstones {
            assert forall|j: int| 0 <= j < s.len() implies (#[trigger] s[j]).len() == 0 by {
                assert(self.levels@[to + j].1@.len() == 0);
                assert(table_runs(self.tables_of(self.levels@[to + j].1@)) =~= Seq::<
                    Seq<Entry>,
                >::empty());
            }
        }
        let p = if with_l0 {
            self.mem_runs()
        } else {
            self.mem_runs() + self.l0_runs() + runs.take(from)
        };
        if with_l0 {
            assert(other.l0_runs() =~= Seq::<Seq<Entry>>::empty());
            assert(runs.take(from) =~= Seq::<Seq<Entry>>::empty());
        } else {
            assert(other.ids_present(other.l0_sstables@));
            assert forall|i: int| 0 <= i < self.l0_sstables@.len() implies other.sstables@[
                #[trigger] self.l0_sstables@[i]] == self.sstables@[self.l0_sstables@[i]] by {
                assert(other.l0_sstables@[i] == self.l0_sstables@[i]);
                assert(other.table_ids().contains(other.l0_sstables@[i]));
                assert(self.sstables@.contains_key(self.l0_sstables@[i]));
                assert(add_tables(self.sstables@, outputs).contains_key(self.l0_sstables@[i]));
            }
            other.lemma_same_tables(*self, self.l0_sstables@);
            assert(other.l0_runs() == self.l0_runs());
        }
        assert(other.mem_runs() =~= self.mem_runs());
        assert(new_runs =~= runs.take(from) + new_mid + s);
        assert(runs =~= runs.take(from) + runs.subrange(from, to) + s);
        assert(other.layers() =~= p + new_mid + s);
        assert(self.layers() =~= p + mid + s);
        assert forall|k: Seq<u8>| #[trigger] other.get_spec(k) == self.get_spec(k) by {
            lemma_slots(new_mid, x, k);
            lemma_first_some_concat(p + new_mid, s, k);
            lemma_first_some_concat(p, new_mid, k);
            lemma_first_some_concat(p + seq![x], s, k);
            lemma_first_some_concat(p, seq![x], k);
            let one = seq![x];
            assert(one.skip(1) =~= Seq::<Seq<Entry>>::empty());
            assert(first_some(one.skip(1), k) is None);
            assert(first_some(one, k) == lookup(x, k));
            lemma_compacted(p, mid, x, s, k);
        }
    }
}

/// Layers of which each is empty or the run `x`, and of which one is `x`
/// where `x` holds entries, hold for every key what `x` holds.
pub proof fn lemma_slots(layers: Seq<Seq<Entry>>, x: Seq<Entry>, k: Seq<u8>)
    requires
        forall|t: int| 0 <= t < layers.len() ==> (#[trigger] layers[t]).len() == 0 || layers[t] == x,
        x.len() > 0 ==> exists|t: int| 0 <= t < layers.len() && #[trigger] layers[t] == x,
    ensures
        first_some(layers, k) == lookup(x, k),
    decreases layers.len(),
{
    if layers.len() == 0 {
        assert(x.len() == 0);
    } else {
        let rest = layers.skip(1);
        if layers[0].len() == 0 {
            assert forall|t: int| 0 <= t < rest.len() implies (#[trigger] rest[t]).len() == 0
                || rest[t] == x by {
                assert(layers[t + 1].len() == 0 || layers[t + 1] == x);
            }
            if x.len() > 0 {
                let t = choose|t: int| 0 <= t < layers.len() && #[trigger] layers[t] == x;
                assert(rest[t - 1] == x);
            }
            lemma_slots(rest, x, k);
        } else {
            assert(layers[0] == x);
            if lookup(x, k) is None {
                assert forall|t: int| 0 <= t < rest.len() implies #[trigger] lookup(
                    rest[t],
                    k,
                ) is None by {
                    assert(layers[t + 1].len() == 0 || layers[t + 1] == x);
                }
                crate::iterators::lemma_first_some(rest, k);
            }
        }
    }
}

} // verus!
