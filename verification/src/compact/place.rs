//! Where new tables come to stand in a level that is kept in the order of
//! first keys.

use std::sync::Arc;
use vstd::prelude::*;
use crate::compact::descend::Plan;
use crate::compact::leveled::{
    applied, insert_by_key, lemma_insert_by_key, sorted_by_key, LeveledCompactionTaskView, Tables,
};
use crate::compact::plan::{first_at, lead, lemma_search_bounds, reach};
use crate::compact::writer::ids_from;
use crate::compact::{ids_of, lemma_without_all, without};
use crate::iterators::concat_iterator::{table_runs, tables_ordered};
use crate::key::{key_lt, lemma_key_lt_asymmetric};
use crate::lsm_storage::{add_tables, lemma_add_tables, levels_view, LsmStorageState};
use crate::run::lemma_runs_first_keys;
use crate::table::SsTable;

verus! {

/// The first keys of the tables `ids` ascend.
pub open spec fn ascending(ids: Seq<usize>, tables: Tables) -> bool {
    forall|i: int, j: int|
        0 <= i < j < ids.len() ==> key_lt(
            tables[#[trigger] ids[i]].first_key_spec(),
            tables[#[trigger] ids[j]].first_key_spec(),
        )
}

/// Ids of tables whose first keys ascend differ from each other.
pub proof fn lemma_ascending_distinct(ids: Seq<usize>, tables: Tables, i: int, j: int)
    requires
        ascending(ids, tables),
        0 <= i < ids.len(),
        0 <= j < ids.len(),
        i != j,
    ensures
        ids[i] != ids[j],
{
    if i < j {
        lemma_key_lt_asymmetric(tables[ids[i]].first_key_spec(), tables[ids[j]].first_key_spec());
    } else {
        lemma_key_lt_asymmetric(tables[ids[j]].first_key_spec(), tables[ids[i]].first_key_spec());
    }
}

/// Without the ids that stand from position `a` up to position `b`, and
/// nowhere else, what is left of `ids` is what stands before `a` and from
/// `b` on.
pub proof fn lemma_without_range(ids: Seq<usize>, remove: Seq<usize>, a: int, b: int)
    requires
        0 <= a <= b <= ids.len(),
        forall|i: int| 0 <= i < ids.len() ==> (remove.contains(#[trigger] ids[i]) <==> a <= i < b),
    ensures
        without(ids, remove) == ids.take(a) + ids.skip(b),
    decreases ids.len(),
{
    let n = ids.len() as int;
    if n == 0 {
        assert(without(ids, remove) =~= ids.take(a) + ids.skip(b));
    } else {
        let front = ids.drop_last();
        let a1 = if a < n { a } else { n - 1 };
        let b1 = if b < n { b } else { n - 1 };
        assert forall|i: int| 0 <= i < front.len() implies (remove.contains(#[trigger] front[i]) <==> a1
            <= i < b1) by {
            assert(front[i] == ids[i]);
        }
        lemma_without_range(front, remove, a1, b1);
        assert(remove.contains(ids[n - 1]) <==> a <= n - 1 < b);
        assert(without(ids, remove) =~= ids.take(a) + ids.skip(b));
    }
}

/// Ids whose first keys ascend are in the order of first keys.
pub proof fn lemma_sorted_ascending(ids: Seq<usize>, tables: Tables)
    requires
        ascending(ids, tables),
    ensures
        sorted_by_key(ids, tables) == ids,
    decreases ids.len(),
{
    if ids.len() > 0 {
        let front = ids.drop_last();
        let id = ids.last();
        assert forall|i: int, j: int| 0 <= i < j < front.len() implies key_lt(
            tables[#[trigger] front[i]].first_key_spec(),
            tables[#[trigger] front[j]].first_key_spec(),
        ) by {
            assert(front[i] == ids[i] && front[j] == ids[j]);
        }
        lemma_sorted_ascending(front, tables);
        assert forall|j: int| 0 <= j < front.len() implies !key_lt(
            tables[id].first_key_spec(),
            tables[#[trigger] front[j]].first_key_spec(),
        ) by {
            assert(front[j] == ids[j]);
            assert(id == ids[ids.len() - 1]);
            lemma_key_lt_asymmetric(tables[ids[j]].first_key_spec(), tables[id].first_key_spec());
        }
        lemma_insert_by_key(front, id, tables, front.len() as int);
        assert(front.insert(front.len() as int, id) =~= ids);
    } else {
        assert(sorted_by_key(ids, tables) =~= ids);
    }
}

/// New tables `new` whose first keys lie between those of the tables
/// `before` and those of the tables `after` come to stand between them
/// when all are put in the order of first keys.
pub proof fn lemma_sorted_between(
    before: Seq<usize>,
    after: Seq<usize>,
    new: Seq<usize>,
    tables: Tables,
)
    requires
        ascending(before + new + after, tables),
    ensures
        sorted_by_key(before + after + new, tables) == before + new + after,
    decreases new.len(),
{
    let all = before + new + after;
    if new.len() == 0 {
        assert(before + after + new =~= all);
        lemma_sorted_ascending(all, tables);
    } else {
        let front = new.drop_last();
        let id = new.last();
        let less = before + front + after;
        let at = (before.len() + front.len()) as int;
        assert forall|i: int, j: int| 0 <= i < j < less.len() implies key_lt(
            tables[#[trigger] less[i]].first_key_spec(),
            tables[#[trigger] less[j]].first_key_spec(),
        ) by {
            let x = if i < at { i } else { i + 1 };
            let y = if j < at { j } else { j + 1 };
            assert(less[i] == all[x] && less[j] == all[y]);
        }
        lemma_sorted_between(before, after, front, tables);
        assert((before + after + new).drop_last() =~= before + after + front);
        assert((before + after + new).last() == id);
        assert(all[at] == id);
        assert forall|j: int| 0 <= j < at implies !key_lt(
            tables[id].first_key_spec(),
            tables[#[trigger] less[j]].first_key_spec(),
        ) by {
            assert(less[j] == all[j]);
            lemma_key_lt_asymmetric(tables[all[j]].first_key_spec(), tables[all[at]].first_key_spec());
        }
        if at < less.len() {
            assert(less[at] == all[at + 1]);
        }
        lemma_insert_by_key(less, id, tables, at);
        assert(less.insert(at, id) =~= all);
        assert(sorted_by_key(before + after + new, tables) == insert_by_key(
            sorted_by_key(before + after + front, tables),
            id,
            tables,
        ));
    }
}

/// The first keys of ordered tables ascend.
pub proof fn lemma_tables_ascend(tables: Seq<Arc<SsTable>>, i: int, j: int)
    requires
        tables_ordered(tables),
        0 <= i < j < tables.len(),
    ensures
        key_lt(tables[i].first_key_spec(), tables[j].first_key_spec()),
{
    lemma_runs_first_keys(table_runs(tables), i, j);
    assert(tables[i].wf() && tables[j].wf());
    tables[i].lemma_entries();
    tables[j].lemma_entries();
}

/// Where the first of `ids` from `j` on that is `id` stands, `id` stands.
pub proof fn lemma_first_at(ids: Seq<usize>, id: usize, j: int)
    requires
        0 <= j,
    ensures
        j <= first_at(ids, id, j),
        first_at(ids, id, j) < ids.len() ==> ids[first_at(ids, id, j)] == id,
    decreases ids.len() - j,
{
    if j < ids.len() && ids[j] != id {
        lemma_first_at(ids, id, j + 1);
    }
}

impl LsmStorageState {
    /// The ids of a level differ from each other, and the first keys of
    /// their tables ascend.
    pub proof fn lemma_level_ascending(&self, j: int)
        requires
            self.wf(),
            0 <= j < self.levels@.len(),
        ensures
            ascending(self.levels@[j].1@, self.sstables@),
    {
        self.lemma_level(j);
        let ids = self.levels@[j].1@;
        let tables = self.tables_of(ids);
        assert forall|x: int, y: int| 0 <= x < y < ids.len() implies key_lt(
            self.sstables@[#[trigger] ids[x]].first_key_spec(),
            self.sstables@[#[trigger] ids[y]].first_key_spec(),
        ) by {
            lemma_tables_ascend(tables, x, y);
        }
    }

    /// Without the lower tables of the plan of a task, the lower level
    /// holds the tables before them and the tables behind them.
    pub proof fn lemma_plan_without(&self, plan: Plan, task: LeveledCompactionTaskView)
        requires
            self.wf(),
            self.plan_spec(task) == Some(plan),
            self.plan_fits(plan),
        ensures
            task.lower_level - 1 == plan.lower,
            task.lower_level_sst_ids == self.levels@[plan.lower as int].1@.subrange(
                plan.from as int,
                plan.to as int,
            ),
            without(self.levels@[plan.lower as int].1@, task.lower_level_sst_ids)
                == self.levels@[plan.lower as int].1@.take(plan.from as int)
                + self.levels@[plan.lower as int].1@.skip(plan.to as int),
    {
        let lo = plan.lower as int;
        let from = plan.from as int;
        let to = plan.to as int;
        let lower = self.levels@[lo].1@;
        let lowers = self.plan_lowers(plan);
        self.lemma_level(lo);
        self.lemma_level_ascending(lo);
        assert(task.lower_level - 1 == lo);
        assert(lowers.len() == self.levels@[lo].1.len() <= usize::MAX);
        let uppers = self.plan_uppers(plan);
        lemma_search_bounds(lowers, uppers, lower, 0, 0);
        lemma_search_bounds(lowers, uppers, lower, 0, lead(lowers, uppers, 0));
        assert(from == lead(lowers, uppers, 0));
        assert(to == reach(lowers, uppers, from));
        assert(task.lower_level_sst_ids == lower.subrange(from, to));
        assert forall|i: int| 0 <= i < lower.len() implies (task.lower_level_sst_ids.contains(
            #[trigger] lower[i],
        ) <==> from <= i < to) by {
            if from <= i < to {
                assert(lower.subrange(from, to)[i - from] == lower[i]);
            }
            if task.lower_level_sst_ids.contains(lower[i]) {
                let p = choose|p: int|
                    0 <= p < task.lower_level_sst_ids.len() && task.lower_level_sst_ids[p]
                        == lower[i];
                if from + p != i {
                    lemma_ascending_distinct(lower, self.sstables@, from + p, i);
                }
            }
        }
        lemma_without_range(lower, task.lower_level_sst_ids, from, to);
    }

    /// The lists that the controller of leveled compaction gives for the
    /// result of a task are those of the plan carried out: the new tables
    /// stand in the place of the lower tables.
    pub proof fn lemma_applied_descends(
        &self,
        plan: Plan,
        task: LeveledCompactionTaskView,
        outputs: Seq<Arc<SsTable>>,
        first: int,
        l0: Seq<usize>,
        levels: Seq<(usize, Vec<usize>)>,
        removed: Seq<usize>,
    )
        requires
            self.wf(),
            self.plan_spec(task) == Some(plan),
            self.plan_fits(plan),
            tables_ordered(
                self.plan_lowers(plan).take(plan.from as int) + outputs + self.plan_lowers(
                    plan,
                ).skip(plan.to as int),
            ),
            ids_from(outputs, first),
            forall|id: usize| self.sstables@.contains_key(id) ==> id < first,
            applied(
                self.l0_sstables@,
                levels_view(self.levels@),
                add_tables(self.sstables@, outputs),
                task,
                ids_of(outputs),
                false,
                l0,
                levels_view(levels),
                removed,
            ),
        ensures
            self.descended(plan, l0, levels, outputs),
    {
        let lo = plan.lower as int;
        let from = plan.from as int;
        let to = plan.to as int;
        let lower = self.levels@[lo].1@;
        let lowers = self.plan_lowers(plan);
        let map = add_tables(self.sstables@, outputs);
        let new = ids_of(outputs);
        let tiers = levels_view(self.levels@);
        self.lemma_level(lo);
        self.lemma_level_ascending(lo);
        lemma_add_tables(self.sstables@, outputs, first);
        assert(levels_view(levels).len() == levels.len());
        assert(tiers[lo] == (self.levels@[lo].0, lower));
        let uppers = self.plan_uppers(plan);
        // The lower tables leave the level.
        self.lemma_plan_without(plan, task);
        // The new tables stand between those before and those behind.
        let all = lower.take(from) + new + lower.skip(to);
        let tables = lowers.take(from) + outputs + lowers.skip(to);
        assert forall|i: int| 0 <= i < all.len() implies map[#[trigger] all[i]] == tables[i] by {
            if i < from {
                assert(all[i] == lower[i]);
                assert(tables[i] == lowers[i]);
                assert(self.sstables@.contains_key(lower[i]));
                assert(map.contains_key(lower[i]));
                assert(map[all[i]] == tables[i]);
            } else if i < from + new.len() {
                assert(all[i] == new[i - from]);
                assert(tables[i] == outputs[i - from]);
                assert(all[i] == outputs[i - from].id_spec());
                assert(map[all[i]] == tables[i]);
            } else {
                let x = i - new.len() - from + to;
                assert(all[i] == lower.skip(to)[i - new.len() - from]);
                assert(tables[i] == lowers.skip(to)[i - outputs.len() - from]);
                assert(all[i] == lower[x]);
                assert(tables[i] == lowers[x]);
                assert(self.sstables@.contains_key(lower[x]));
                assert(map.contains_key(lower[x]));
                assert(map[all[i]] == tables[i]);
            }
        }
        assert forall|i: int, j: int| 0 <= i < j < all.len() implies key_lt(
            map[#[trigger] all[i]].first_key_spec(),
            map[#[trigger] all[j]].first_key_spec(),
        ) by {
            lemma_tables_ascend(tables, i, j);
        }
        lemma_sorted_between(lower.take(from), lower.skip(to), new, map);
        assert(levels_view(levels)[lo] == (levels[lo].0, levels[lo].1@));
        assert(levels[lo].1@ == all);
        // The upper tables leave their level.
        if plan.from_l0 {
            assert(task.upper_level is None);
            assert(task.upper_level_sst_ids == self.l0_sstables@);
            assert forall|i: int| 0 <= i < self.l0_sstables@.len() implies task.upper_level_sst_ids.contains(
                #[trigger] self.l0_sstables@[i],
            ) by {}
            lemma_without_all(self.l0_sstables@, task.upper_level_sst_ids);
            assert(l0 =~= Seq::<usize>::empty());
        } else {
            let up = plan.upper as int;
            let at = plan.at as int;
            let upper = self.levels@[up].1@;
            let id = task.upper_level_sst_ids[0];
            assert(task.upper_level == Some((up + 1) as usize));
            assert(tiers[up] == (self.levels@[up].0, upper));
            lemma_first_at(upper, id, 0);
            lemma_search_bounds(lowers, uppers, upper, id, 0);
            assert(upper.len() == self.levels@[up].1.len() <= usize::MAX);
            assert(at == first_at(upper, id, 0));
            self.lemma_level_ascending(up);
            assert forall|i: int| 0 <= i < upper.len() implies (task.upper_level_sst_ids.contains(
                #[trigger] upper[i],
            ) <==> at <= i < at + 1) by {
                if i == at {
                    assert(task.upper_level_sst_ids[0] == upper[i]);
                }
                if task.upper_level_sst_ids.contains(upper[i]) && i != at {
                    lemma_ascending_distinct(upper, self.sstables@, at, i);
                }
            }
            lemma_without_range(upper, task.upper_level_sst_ids, at, at + 1);
            assert(levels_view(levels)[up] == (levels[up].0, levels[up].1@));
        }
        assert forall|j: int|
            0 <= j < levels.len() && j != plan.lower && (plan.from_l0 || j
                != plan.upper) implies (#[trigger] levels[j]).1@ == self.levels@[j].1@ by {
            assert(levels_view(levels)[j] == (levels[j].0, levels[j].1@));
            assert(tiers[j] == (self.levels@[j].0, self.levels@[j].1@));
        }
    }
}

} // verus!
