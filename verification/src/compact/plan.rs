//! Finding where the tables of a task of leveled compaction stand in the
//! store.

use std::sync::Arc;
use vstd::prelude::*;
use crate::compact::descend::{begins_after, ends_before, Plan};
use crate::compact::leveled::{LeveledCompactionTask, LeveledCompactionTaskView};
use crate::key::key_less;
use crate::lsm_storage::LsmStorageState;
use crate::table::SsTable;

verus! {

/// Whether each of `uppers` begins after `other` ends.
pub open spec fn all_after(uppers: Seq<Arc<SsTable>>, other: Arc<SsTable>) -> bool {
    forall|i: int| 0 <= i < uppers.len() ==> begins_after(#[trigger] uppers[i], other)
}

/// Whether each of `uppers` ends before `other` begins.
pub open spec fn all_before(uppers: Seq<Arc<SsTable>>, other: Arc<SsTable>) -> bool {
    forall|i: int| 0 <= i < uppers.len() ==> ends_before(#[trigger] uppers[i], other)
}

/// The index of the first of `lowers` from `j` on after which not every
/// one of `uppers` begins, or the number of `lowers`.
pub open spec fn lead(lowers: Seq<Arc<SsTable>>, uppers: Seq<Arc<SsTable>>, j: int) -> int
    decreases lowers.len() - j,
{
    if j < 0 || j >= lowers.len() || !all_after(uppers, lowers[j]) {
        j
    } else {
        lead(lowers, uppers, j + 1)
    }
}

/// The index of the first of `lowers` from `j` on before which every one
/// of `uppers` ends, or the number of `lowers`.
pub open spec fn reach(lowers: Seq<Arc<SsTable>>, uppers: Seq<Arc<SsTable>>, j: int) -> int
    decreases lowers.len() - j,
{
    if j < 0 || j >= lowers.len() || all_before(uppers, lowers[j]) {
        j
    } else {
        reach(lowers, uppers, j + 1)
    }
}

/// The index of the first of `ids` from `j` on that is `id`, or the number
/// of `ids`.
pub open spec fn first_at(ids: Seq<usize>, id: usize, j: int) -> int
    decreases ids.len() - j,
{
    if j < 0 || j >= ids.len() || ids[j] == id {
        j
    } else {
        first_at(ids, id, j + 1)
    }
}

/// The three indices lie between `j` and the number of items.
pub proof fn lemma_search_bounds(
    lowers: Seq<Arc<SsTable>>,
    uppers: Seq<Arc<SsTable>>,
    ids: Seq<usize>,
    id: usize,
    j: int,
)
    requires
        0 <= j,
    ensures
        j <= lowers.len() ==> j <= lead(lowers, uppers, j) <= lowers.len(),
        j <= lowers.len() ==> j <= reach(lowers, uppers, j) <= lowers.len(),
        j <= ids.len() ==> j <= first_at(ids, id, j) <= ids.len(),
    decreases (if lowers.len() > ids.len() { lowers.len() } else { ids.len() }) - j,
{
    if j < lowers.len() || j < ids.len() {
        lemma_search_bounds(lowers, uppers, ids, id, j + 1);
    }
}

/// Whether each of `uppers` begins after `other` ends.
fn all_begin_after(uppers: &Vec<Arc<SsTable>>, other: &Arc<SsTable>) -> (r: bool)
    requires
        forall|i: int| 0 <= i < uppers@.len() ==> (#[trigger] uppers@[i]).wf(),
    ensures
        r == all_after(uppers@, *other),
{
    let mut i: usize = 0;
    while i < uppers.len()
        invariant
            i <= uppers@.len(),
            forall|i: int| 0 <= i < uppers@.len() ==> (#[trigger] uppers@[i]).wf(),
            forall|j: int| 0 <= j < i ==> begins_after(#[trigger] uppers@[j], *other),
        decreases uppers@.len() - i,
    {
        proof {
            assert(uppers@[i as int].wf());
            uppers@[i as int].lemma_entries();
        }
        if uppers[i].num_of_blocks() > 0 && !key_less(other.last_key(), uppers[i].first_key()) {
            return false;
        }
        i += 1;
    }
    true
}

/// Whether each of `uppers` ends before `other` begins.
fn all_end_before(uppers: &Vec<Arc<SsTable>>, other: &Arc<SsTable>) -> (r: bool)
    requires
        forall|i: int| 0 <= i < uppers@.len() ==> (#[trigger] uppers@[i]).wf(),
    ensures
        r == all_before(uppers@, *other),
{
    let mut i: usize = 0;
    while i < uppers.len()
        invariant
            i <= uppers@.len(),
            forall|i: int| 0 <= i < uppers@.len() ==> (#[trigger] uppers@[i]).wf(),
            forall|j: int| 0 <= j < i ==> ends_before(#[trigger] uppers@[j], *other),
        decreases uppers@.len() - i,
    {
        proof {
            assert(uppers@[i as int].wf());
            uppers@[i as int].lemma_entries();
        }
        if uppers[i].num_of_blocks() > 0 && !key_less(uppers[i].last_key(), other.first_key()) {
            return false;
        }
        i += 1;
    }
    true
}

/// Whether two lists hold the same ids.
pub(crate) fn same_ids(a: &Vec<usize>, b: &Vec<usize>) -> (r: bool)
    ensures
        r == (a@ == b@),
{
    if a.len() != b.len() {
        return false;
    }
    let mut i: usize = 0;
    while i < a.len()
        invariant
            a@.len() == b@.len(),
            i <= a@.len(),
            forall|j: int| 0 <= j < i ==> a@[j] == b@[j],
        decreases a@.len() - i,
    {
        if a[i] != b[i] {
            return false;
        }
        i += 1;
    }
    assert(a@ =~= b@);
    true
}

impl LsmStorageState {
    /// The plan for upper tables that are those of level 0 (`from_l0`) or
    /// the table at position `at` of the level at index `upper`, where the
    /// lower tables of the task stand in the lower level between the tables
    /// after which every upper table begins and the first table before
    /// which every upper table ends.
    pub open spec fn plan_with(
        &self,
        task: LeveledCompactionTaskView,
        from_l0: bool,
        upper: usize,
        at: usize,
    ) -> Option<Plan> {
        let lower = (task.lower_level - 1) as usize;
        let start = Plan { from_l0, upper, at, lower, from: 0, to: 0 };
        let lowers = self.plan_lowers(start);
        let uppers = self.plan_uppers(start);
        let from = lead(lowers, uppers, 0);
        let to = reach(lowers, uppers, from);
        if self.levels@[lower as int].1@.subrange(from, to) == task.lower_level_sst_ids {
            Some(Plan { from_l0, upper, at, lower, from: from as usize, to: to as usize })
        } else {
            None
        }
    }

    /// Where the tables of a task stand in this state, if they stand as a
    /// compaction needs them to: the lower level is a level of the store;
    /// the upper tables are all tables of level 0, with no table in the
    /// levels above the lower level, or one table of the level above the
    /// lower level; and the lower tables are those that `plan_with` names.
    pub open spec fn plan_spec(&self, task: LeveledCompactionTaskView) -> Option<Plan> {
        if task.lower_level == 0 || task.lower_level > self.levels@.len() {
            None
        } else {
            match task.upper_level {
                None => if task.upper_level_sst_ids == self.l0_sstables@ && forall|j: int|
                    0 <= j < task.lower_level - 1 ==> (#[trigger] self.levels@[j]).1@.len() == 0 {
                    self.plan_with(task, true, 0, 0)
                } else {
                    None
                },
                Some(level) => if level == 0 || level + 1 != task.lower_level
                    || task.upper_level_sst_ids.len() != 1 {
                    None
                } else {
                    let at = first_at(self.levels@[level - 1].1@, task.upper_level_sst_ids[0], 0);
                    if at < self.levels@[level - 1].1@.len() {
                        self.plan_with(task, false, (level - 1) as usize, at as usize)
                    } else {
                        None
                    }
                },
            }
        }
    }

    /// States with the same tables have the same plans.
    pub proof fn lemma_same_plan(&self, other: LsmStorageState, task: LeveledCompactionTaskView)
        requires
            self.same_tables(other),
        ensures
            self.plan_spec(task) == other.plan_spec(task),
            self.plan_spec(task) matches Some(plan) ==> self.plan_layers(plan) == other.plan_layers(
                plan,
            ),
    {
        self.lemma_same_parts(other);
        if 1 <= task.lower_level <= self.levels@.len() {
            let lower = (task.lower_level - 1) as usize;
            assert(self.levels@[lower as int].1@ == other.levels@[lower as int].1@);
            assert(self.tables_of(self.levels@[lower as int].1@) =~= other.tables_of(
                other.levels@[lower as int].1@,
            ));
            assert(self.tables_of(self.l0_sstables@) =~= other.tables_of(other.l0_sstables@));
            match task.upper_level {
                None => {
                    assert(self.plan_with(task, true, 0, 0) == other.plan_with(task, true, 0, 0));
                    let to = task.lower_level - 1;
                    self.lemma_same_empty(other, 0, to);
                    assert(self.empty_between(0, to) == (forall|j: int|
                        0 <= j < to ==> (#[trigger] self.levels@[j]).1@.len() == 0));
                    assert(other.empty_between(0, to) == (forall|j: int|
                        0 <= j < to ==> (#[trigger] other.levels@[j]).1@.len() == 0));
                },
                Some(level) => {
                    if level >= 1 && level + 1 == task.lower_level {
                        let up = level - 1;
                        assert(self.levels@[up].1@ == other.levels@[up].1@);
                        assert(self.tables_of(self.levels@[up].1@) =~= other.tables_of(
                            other.levels@[up].1@,
                        ));
                        let at = first_at(self.levels@[up].1@, task.upper_level_sst_ids[0], 0);
                        if task.upper_level_sst_ids.len() == 1 && at < self.levels@[up].1@.len() {
                            assert(self.plan_with(task, false, up as usize, at as usize)
                                == other.plan_with(task, false, up as usize, at as usize));
                        }
                    }
                },
            }
        }
    }

    /// Where the tables of `task` stand in this state, if they stand as a
    /// compaction needs them to.
    pub fn plan_of(&self, task: &LeveledCompactionTask) -> (r: Option<Plan>)
        requires
            self.wf(),
        ensures
            r == self.plan_spec(task@),
            r matches Some(plan) ==> self.plan_fits(plan) && self.plan_ids(plan)
                == task.upper_level_sst_ids@ + task.lower_level_sst_ids@,
    {
        if task.lower_level == 0 || task.lower_level > self.levels.len() {
            return None;
        }
        let lower = task.lower_level - 1;
        let mut plan = Plan { from_l0: true, upper: 0, at: 0, lower, from: 0, to: 0 };
        proof {
            self.lemma_level(lower as int);
        }
        let uppers = match task.upper_level {
            None => {
                if !same_ids(&task.upper_level_sst_ids, &self.l0_sstables) {
                    return None;
                }
                let mut j: usize = 0;
                while j < lower
                    invariant
                        task.upper_level is None,
                        task.lower_level == lower + 1,
                        j <= lower < self.levels@.len(),
                        forall|x: int| 0 <= x < j ==> (#[trigger] self.levels@[x]).1@.len() == 0,
                    decreases lower - j,
                {
                    if self.levels[j].1.len() > 0 {
                        assert(self.levels@[j as int].1@.len() != 0);
                        return None;
                    }
                    j += 1;
                }
                self.tables(&self.l0_sstables)
            },
            Some(level) => {
                if level == 0 || level != lower || task.upper_level_sst_ids.len() != 1 {
                    return None;
                }
                let upper = level - 1;
                let id = task.upper_level_sst_ids[0];
                let ghost ids = self.levels@[upper as int].1@;
                let mut at: usize = 0;
                while at < self.levels[upper].1.len() && self.levels[upper].1[at] != id
                    invariant
                        upper < self.levels@.len(),
                        ids == self.levels@[upper as int].1@,
                        at <= ids.len(),
                        first_at(ids, id, 0) == first_at(ids, id, at as int),
                    decreases self.levels@[upper as int].1@.len() - at,
                {
                    at += 1;
                }
                if at >= self.levels[upper].1.len() {
                    return None;
                }
                plan.from_l0 = false;
                plan.upper = upper;
                plan.at = at;
                proof {
                    self.lemma_level(upper as int);
                    assert(task.upper_level_sst_ids@ =~= seq![id]);
                }
                let mut one: Vec<Arc<SsTable>> = Vec::new();
                assert(self.sstables@.contains_key(self.levels@[upper as int].1@[at as int]));
                one.push(self.table(id));
                assert(one@ =~= self.plan_uppers(plan));
                one
            },
        };
        let ghost start = plan;
        assert(uppers@ == self.plan_uppers(plan));
        proof {
            assert forall|i: int| 0 <= i < uppers@.len() implies (#[trigger] uppers@[i]).wf() by {
                if plan.from_l0 {
                    assert(self.tables_of(self.l0_sstables@)[i].wf());
                } else {
                    assert(self.tables_of(self.levels@[plan.upper as int].1@)[plan.at as int].wf());
                }
            }
        }
        let lowers = self.tables(&self.levels[lower].1);
        let n = lowers.len();
        // The tables that end before any upper table begins.
        let mut from: usize = 0;
        while from < n && all_begin_after(&uppers, &lowers[from])
            invariant
                n == lowers@.len(),
                from <= n,
                forall|i: int| 0 <= i < uppers@.len() ==> (#[trigger] uppers@[i]).wf(),
                from > 0 ==> all_after(uppers@, lowers@[from - 1]),
                lead(lowers@, uppers@, 0) == lead(lowers@, uppers@, from as int),
            decreases n - from,
        {
            from += 1;
        }
        // The tables up to the first that begins after every upper table
        // ends.
        let mut to: usize = from;
        while to < n && !all_end_before(&uppers, &lowers[to])
            invariant
                n == lowers@.len(),
                from <= to <= n,
                forall|i: int| 0 <= i < uppers@.len() ==> (#[trigger] uppers@[i]).wf(),
                reach(lowers@, uppers@, from as int) == reach(lowers@, uppers@, to as int),
            decreases n - to,
        {
            to += 1;
        }
        plan.from = from;
        plan.to = to;
        let mut part: Vec<usize> = Vec::new();
        let mut x: usize = from;
        let ghost ids = self.levels@[lower as int].1@;
        while x < to
            invariant
                lower < self.levels@.len(),
                from <= x <= to <= ids.len(),
                ids == self.levels@[lower as int].1@,
                part@ == ids.subrange(from as int, x as int),
            decreases to - x,
        {
            part.push(self.levels[lower].1[x]);
            assert(part@ =~= ids.subrange(from as int, x + 1));
            x += 1;
        }
        proof {
            assert(self.plan_lowers(start) == lowers@);
            assert(self.plan_uppers(start) == uppers@);
            assert(self.plan_uppers(plan) == uppers@);
        }
        if !same_ids(&part, &task.lower_level_sst_ids) {
            return None;
        }
        Some(plan)
    }
}

} // verus!
