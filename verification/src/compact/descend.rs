//! Moving tables down into a part of the next level: the compaction of a
//! task of leveled compaction.
//!
//! The upper tables are merged with the tables of the lower level that
//! stand between the tables before the upper key ranges and the tables
//! after them; the new tables take the place of those.

use std::sync::Arc;
use vstd::prelude::*;
use crate::compact::tiered::all_ids;
use crate::compact::writer::{build_tables, ids_from};
use crate::compact::{append_ids, ids_of, iters_of, merged, table_ids_of, without, CompactionTask};
use crate::error::Error;
use crate::handle::share;
use crate::iterators::concat_iterator::{table_runs, tables_ordered, SstConcatIterator};
use crate::iterators::merge_iterator::MergeIterator;
use crate::iterators::two_merge_iterator::TwoMergeIterator;
use crate::iterators::{
    all_empty, first_some, kept, lemma_first_some, lemma_first_some_concat, lemma_live,
    lemma_lookup_joined, lemma_merge2, lemma_merge_all, lemma_none_in_empty, merge2, merge_all,
    visible, StorageIterator,
};
use crate::key::{key_lt, lemma_key_le_lt, lemma_key_lt_transitive};
use crate::lsm_storage::{
    add_tables, lemma_add_tables, lemma_all_ids_member,
    lemma_all_ids_source, lemma_installed, levels_view, lists_ok, present, resolve,
    LsmStorageInner, LsmStorageState,
};
use crate::run::{
    concat_runs, is_run, lemma_concat_add, lemma_concat_is_run, lemma_key_range,
    lemma_ordered_join, lemma_ordered_subrange, lemma_parts_disjoint, lemma_runs_apart, lookup,
    runs_ordered, Entry,
};
use crate::table::SsTable;

verus! {

/// Where the tables of a task stand in the store.
#[derive(Debug, Clone, Copy)]
pub struct Plan {
    /// Whether the upper tables are those of level 0.
    pub from_l0: bool,
    /// The index of the upper level, where the upper table is not of level
    /// 0.
    pub upper: usize,
    /// The position of the upper table in its level.
    pub at: usize,
    /// The index of the lower level.
    pub lower: usize,
    /// The position of the first lower table in its level.
    pub from: usize,
    /// The position behind the last lower table in its level.
    pub to: usize,
}

/// `a`, or `b` where `a` holds nothing.
pub open spec fn or(a: Option<Seq<u8>>, b: Option<Seq<u8>>) -> Option<Seq<u8>> {
    match a {
        Some(v) => Some(v),
        None => b,
    }
}

/// Moving an upper run down into the place of a part of the lower level
/// changes nothing for a reader: `u` is what the upper run holds for a key,
/// `tb` and `ta` what the tables beside it hold, `o` what the part of the
/// lower level holds, `bb` and `ba` what the tables before and after the
/// part hold, `x` what the new tables hold, `p` and `s` what the layers
/// above and below hold.
pub proof fn lemma_descended(
    p: Option<Seq<u8>>,
    tb: Option<Seq<u8>>,
    u: Option<Seq<u8>>,
    ta: Option<Seq<u8>>,
    bb: Option<Seq<u8>>,
    o: Option<Seq<u8>>,
    ba: Option<Seq<u8>>,
    s: Option<Seq<u8>>,
    x: Option<Seq<u8>>,
    drop_tombstones: bool,
)
    requires
        u is Some ==> tb is None && ta is None && bb is None && ba is None,
        o is Some ==> bb is None && ba is None,
        x == if drop_tombstones {
            visible(or(u, o))
        } else {
            or(u, o)
        },
        drop_tombstones ==> s is None,
    ensures
        visible(or(p, or(or(tb, ta), or(or(bb, or(x, ba)), s)))) == visible(
            or(p, or(or(tb, or(u, ta)), or(or(bb, or(o, ba)), s))),
        ),
{
}

/// Whether every key of `table` comes after every key of `other`: `other`
/// ends before `table` begins. A table without entries comes after every
/// table.
pub open spec fn begins_after(table: Arc<SsTable>, other: Arc<SsTable>) -> bool {
    table.entries().len() > 0 ==> key_lt(other.last_key_spec(), table.first_key_spec())
}

/// Whether every key of `table` comes before every key of `other`.
pub open spec fn ends_before(table: Arc<SsTable>, other: Arc<SsTable>) -> bool {
    table.entries().len() > 0 ==> key_lt(table.last_key_spec(), other.first_key_spec())
}

impl LsmStorageState {
    /// The upper tables of a plan: the tables of level 0, or the one table
    /// at its position in the upper level.
    pub open spec fn plan_uppers(&self, plan: Plan) -> Seq<Arc<SsTable>> {
        if plan.from_l0 {
            self.tables_of(self.l0_sstables@)
        } else {
            seq![self.tables_of(self.levels@[plan.upper as int].1@)[plan.at as int]]
        }
    }

    /// The tables of the lower level of a plan.
    pub open spec fn plan_lowers(&self, plan: Plan) -> Seq<Arc<SsTable>> {
        self.tables_of(self.levels@[plan.lower as int].1@)
    }

    /// The plan names tables of this state that can be merged: the lower
    /// tables stand together in the level below the upper tables, with no
    /// table between the upper and the lower level; the tables before them
    /// end before any upper table begins, and the tables after them begin
    /// after every upper table ends.
    pub open spec fn plan_fits(&self, plan: Plan) -> bool {
        let lowers = self.plan_lowers(plan);
        let uppers = self.plan_uppers(plan);
        &&& plan.lower < self.levels@.len()
        &&& plan.from <= plan.to <= lowers.len()
        &&& plan.from_l0 ==> forall|j: int|
            0 <= j < plan.lower ==> (#[trigger] self.levels@[j]).1@.len() == 0
        &&& !plan.from_l0 ==> plan.upper + 1 == plan.lower && plan.at
            < self.levels@[plan.upper as int].1@.len()
        &&& plan.from > 0 ==> forall|i: int|
            0 <= i < uppers.len() ==> begins_after(#[trigger] uppers[i], lowers[plan.from - 1])
        &&& plan.to < lowers.len() ==> forall|i: int|
            0 <= i < uppers.len() ==> ends_before(#[trigger] uppers[i], lowers[plan.to as int])
    }

    /// The ids of the tables that the plan reads.
    pub open spec fn plan_ids(&self, plan: Plan) -> Seq<usize> {
        (if plan.from_l0 {
            self.l0_sstables@
        } else {
            seq![self.levels@[plan.upper as int].1@[plan.at as int]]
        }) + self.levels@[plan.lower as int].1@.subrange(plan.from as int, plan.to as int)
    }

    /// The layers that the plan reads: each upper table, then the lower
    /// tables as one run.
    pub open spec fn plan_layers(&self, plan: Plan) -> Seq<Seq<Entry>> {
        table_runs(self.plan_uppers(plan)) + seq![
            concat_runs(
                table_runs(self.plan_lowers(plan).subrange(plan.from as int, plan.to as int)),
            ),
        ]
    }

    /// The tables of a level are open and ordered.
    pub proof fn lemma_level(&self, j: int)
        requires
            self.wf(),
            0 <= j < self.levels@.len(),
        ensures
            self.ids_present(self.levels@[j].1@),
            tables_ordered(self.tables_of(self.levels@[j].1@)),
            self.tables_of(self.levels@[j].1@).len() == self.levels@[j].1@.len(),
    {
    }
}

impl LsmStorageState {
    /// The shape of the lists after a plan was carried out: level 0 is
    /// empty where its tables went down, or the upper level is without the
    /// upper table; in the lower level the new tables stand in the place
    /// of the lower tables; the other levels are as they were.
    pub open spec fn descended(
        &self,
        plan: Plan,
        l0: Seq<usize>,
        levels: Seq<(usize, Vec<usize>)>,
        outputs: Seq<Arc<SsTable>>,
    ) -> bool {
        let lower = self.levels@[plan.lower as int].1@;
        &&& levels.len() == self.levels@.len()
        &&& l0 == if plan.from_l0 {
            Seq::<usize>::empty()
        } else {
            self.l0_sstables@
        }
        &&& levels[plan.lower as int].1@ == lower.take(plan.from as int) + ids_of(outputs)
            + lower.skip(plan.to as int)
        &&& !plan.from_l0 ==> levels[plan.upper as int].1@ == self.levels@[plan.upper as int].1@.take(
            plan.at as int,
        ) + self.levels@[plan.upper as int].1@.skip(plan.at + 1)
        &&& forall|j: int|
            0 <= j < levels.len() && j != plan.lower && (plan.from_l0 || j != plan.upper) ==> (
            #[trigger] levels[j]).1@ == self.levels@[j].1@
    }

    /// Every key of the tables that a plan reads lies behind the tables
    /// before the lower tables, and before the tables behind them.
    #[verifier::rlimit(30)]
    pub proof fn lemma_input_keys(&self, plan: Plan, k: Seq<u8>)
        requires
            self.wf(),
            self.plan_fits(plan),
            first_some(self.plan_layers(plan), k) is Some,
        ensures
            plan.from > 0 ==> key_lt(
                table_runs(self.plan_lowers(plan))[plan.from - 1].last().0,
                k,
            ),
            plan.to < self.plan_lowers(plan).len() ==> key_lt(
                k,
                table_runs(self.plan_lowers(plan))[plan.to as int][0].0,
            ),
    {
        let lowers = self.plan_lowers(plan);
        let uppers = self.plan_uppers(plan);
        let runs = table_runs(lowers);
        let layers = self.plan_layers(plan);
        let from = plan.from as int;
        let to = plan.to as int;
        self.lemma_level(plan.lower as int);
        lemma_first_some(layers, k);
        let w = choose|w: int|
            0 <= w < layers.len() && #[trigger] lookup(layers[w], k) == first_some(layers, k)
                && forall|j: int| 0 <= j < w ==> #[trigger] lookup(layers[j], k) is None;
        if from > 0 {
            assert(lowers[from - 1].wf());
            lowers[from - 1].lemma_entries();
            assert(is_run(runs[from - 1]) && runs[from - 1].len() > 0);
        }
        if to < lowers.len() {
            assert(lowers[to].wf());
            lowers[to].lemma_entries();
            assert(is_run(runs[to]) && runs[to].len() > 0);
        }
        if w < uppers.len() {
            let table = uppers[w];
            assert(layers[w] == table.entries());
            if plan.from_l0 {
                assert(self.tables_of(self.l0_sstables@)[w].wf());
            } else {
                self.lemma_level(plan.upper as int);
                assert(self.tables_of(self.levels@[plan.upper as int].1@)[plan.at as int].wf());
            }
            table.lemma_entries();
            lemma_key_range(table.entries(), k);
            if from > 0 {
                assert(begins_after(uppers[w], lowers[from - 1]));
                lemma_key_le_lt(runs[from - 1].last().0, table.first_key_spec(), k);
                if table.first_key_spec() != k {
                    lemma_key_lt_transitive(runs[from - 1].last().0, table.first_key_spec(), k);
                }
            }
            if to < lowers.len() {
                assert(ends_before(uppers[w], lowers[to]));
                lemma_key_le_lt(k, table.last_key_spec(), runs[to][0].0);
                if table.last_key_spec() != k {
                    lemma_key_lt_transitive(k, table.last_key_spec(), runs[to][0].0);
                }
            }
        } else {
            let part = runs.subrange(from, to);
            assert(table_runs(lowers.subrange(from, to)) =~= part);
            assert(layers[w] == concat_runs(part));
            lemma_ordered_subrange(runs, from, to);
            lemma_concat_is_run(part);
            lemma_key_range(concat_runs(part), k);
            assert(part.len() > 0);
            assert(part[0] == runs[from]);
            assert(part.last() == runs[to - 1]);
            if from > 0 {
                lemma_runs_apart(runs, from - 1, from);
                lemma_key_le_lt(runs[from - 1].last().0, runs[from][0].0, k);
                if runs[from][0].0 != k {
                    lemma_key_lt_transitive(runs[from - 1].last().0, runs[from][0].0, k);
                }
            }
            if to < lowers.len() {
                lemma_runs_apart(runs, to - 1, to);
                lemma_key_le_lt(k, runs[to - 1].last().0, runs[to][0].0);
                if runs[to - 1].last().0 != k {
                    lemma_key_lt_transitive(k, runs[to - 1].last().0, runs[to][0].0);
                }
            }
        }
    }

    /// The tables of the lower level with the new tables in the place of
    /// the lower tables are ordered.
    #[verifier::rlimit(30)]
    pub proof fn lemma_descended_lower(&self, plan: Plan, outputs: Seq<Arc<SsTable>>)
        requires
            self.wf(),
            self.plan_fits(plan),
            tables_ordered(outputs),
            forall|k: Seq<u8>|
                #[trigger] lookup(concat_runs(table_runs(outputs)), k) is Some ==> first_some(
                    self.plan_layers(plan),
                    k,
                ) is Some,
        ensures
            tables_ordered(
                self.plan_lowers(plan).take(plan.from as int) + outputs + self.plan_lowers(
                    plan,
                ).skip(plan.to as int),
            ),
    {
        let lowers = self.plan_lowers(plan);
        let runs = table_runs(lowers);
        let from = plan.from as int;
        let to = plan.to as int;
        let n = lowers.len() as int;
        let out = table_runs(outputs);
        let x = concat_runs(out);
        self.lemma_level(plan.lower as int);
        let all = lowers.take(from) + outputs + lowers.skip(to);
        assert forall|i: int| 0 <= i < all.len() implies (#[trigger] all[i]).wf() by {
            if i < from {
                assert(lowers[i].wf());
            } else if i < from + outputs.len() {
                assert(outputs[i - from].wf());
            } else {
                assert(lowers[i - from - outputs.len() + to].wf());
            }
        }
        let before = runs.subrange(0, from);
        let after = runs.subrange(to, n);
        lemma_ordered_subrange(runs, 0, from);
        lemma_ordered_subrange(runs, to, n);
        assert(table_runs(all) =~= before + out + after);
        lemma_concat_is_run(out);
        if out.len() > 0 {
            let k0 = x[0].0;
            let k1 = x.last().0;
            crate::run::lemma_lookup_at(x, 0);
            crate::run::lemma_lookup_at(x, x.len() - 1);
            self.lemma_input_keys(plan, k0);
            self.lemma_input_keys(plan, k1);
            if from > 0 {
                assert(before.last() == runs[from - 1]);
            }
            if to < n {
                assert(after[0] == runs[to]);
            }
            lemma_ordered_join(before, out);
            assert((before + out).last() == out.last());
            lemma_ordered_join(before + out, after);
        } else {
            assert(before + out =~= before);
            if from > 0 && to < n {
                lemma_runs_apart(runs, from - 1, to);
                assert(before.last() == runs[from - 1]);
                assert(after[0] == runs[to]);
            }
            lemma_ordered_join(before, after);
        }
    }

    /// The tables of the upper level without the upper table are ordered.
    pub proof fn lemma_descended_upper(&self, plan: Plan)
        requires
            self.wf(),
            self.plan_fits(plan),
            !plan.from_l0,
        ensures
            tables_ordered(
                self.tables_of(self.levels@[plan.upper as int].1@).take(plan.at as int)
                    + self.tables_of(self.levels@[plan.upper as int].1@).skip(plan.at + 1),
            ),
    {
        let tables = self.tables_of(self.levels@[plan.upper as int].1@);
        let runs = table_runs(tables);
        let at = plan.at as int;
        let n = tables.len() as int;
        self.lemma_level(plan.upper as int);
        let all = tables.take(at) + tables.skip(at + 1);
        assert forall|i: int| 0 <= i < all.len() implies (#[trigger] all[i]).wf() by {
            if i < at {
                assert(tables[i].wf());
            } else {
                assert(tables[i + 1].wf());
            }
        }
        let before = runs.subrange(0, at);
        let after = runs.subrange(at + 1, n);
        lemma_ordered_subrange(runs, 0, at);
        lemma_ordered_subrange(runs, at + 1, n);
        assert(table_runs(all) =~= before + after);
        if at > 0 && at + 1 < n {
            lemma_runs_apart(runs, at - 1, at + 1);
            assert(before.last() == runs[at - 1]);
            assert(after[0] == runs[at + 1]);
        }
        lemma_ordered_join(before, after);
    }
}

impl LsmStorageState {
    /// What the layers that a plan reads hold for a key: what the first
    /// upper table with that key holds, or else what the lower tables hold.
    pub proof fn lemma_plan_layers(&self, plan: Plan, k: Seq<u8>)
        ensures
            first_some(self.plan_layers(plan), k) == or(
                first_some(table_runs(self.plan_uppers(plan)), k),
                lookup(
                    concat_runs(
                        table_runs(
                            self.plan_lowers(plan).subrange(plan.from as int, plan.to as int),
                        ),
                    ),
                    k,
                ),
            ),
    {
        let upper = table_runs(self.plan_uppers(plan));
        let part = concat_runs(
            table_runs(self.plan_lowers(plan).subrange(plan.from as int, plan.to as int)),
        );
        let one = seq![part];
        lemma_first_some_concat(upper, one, k);
        assert(one.skip(1) =~= Seq::<Seq<Entry>>::empty());
        assert(first_some(one.skip(1), k) is None);
        assert(first_some(one, k) == lookup(part, k));
    }

    /// The lists of ids after a plan was carried out name tables that can
    /// make up a store; they name every new table, and every table that
    /// the plan did not read.
    #[verifier::rlimit(30)]
    pub proof fn lemma_descended_lists(
        &self,
        plan: Plan,
        l0: Seq<usize>,
        levels: Seq<(usize, Vec<usize>)>,
        outputs: Seq<Arc<SsTable>>,
        first: int,
    )
        requires
            self.wf(),
            self.plan_fits(plan),
            self.descended(plan, l0, levels, outputs),
            tables_ordered(outputs),
            ids_from(outputs, first),
            forall|id: usize| self.sstables@.contains_key(id) ==> id < first,
            forall|k: Seq<u8>|
                #[trigger] lookup(concat_runs(table_runs(outputs)), k) is Some ==> first_some(
                    self.plan_layers(plan),
                    k,
                ) is Some,
        ensures
            lists_ok(l0, levels_view(levels), add_tables(self.sstables@, outputs)),
            forall|i: int|
                0 <= i < outputs.len() ==> (l0 + all_ids(levels_view(levels))).contains(
                    (#[trigger] outputs[i]).id_spec(),
                ),
            forall|id: usize|
                self.sstables@.contains_key(id) && !self.plan_ids(plan).contains(id) ==> (l0
                    + all_ids(levels_view(levels))).contains(id),
    {
        let map = add_tables(self.sstables@, outputs);
        let tiers = levels_view(levels);
        let old_tiers = levels_view(self.levels@);
        let ids = l0 + all_ids(tiers);
        let lo = plan.lower as int;
        let from = plan.from as int;
        let to = plan.to as int;
        let lower = self.levels@[lo].1@;
        let lowers = self.plan_lowers(plan);
        lemma_add_tables(self.sstables@, outputs, first);
        self.lemma_wf();
        self.lemma_level(lo);
        assert forall|list: Seq<usize>| #[trigger]
            present(self.sstables@, list) implies present(map, list) && resolve(map, list)
            == resolve(self.sstables@, list) by {
            assert forall|i: int| 0 <= i < list.len() implies map.contains_key(
                #[trigger] list[i],
            ) && map[list[i]] == self.sstables@[list[i]] by {
                assert(self.sstables@.contains_key(list[i]));
                assert(add_tables(self.sstables@, outputs).contains_key(list[i]));
            }
            assert(resolve(map, list) =~= resolve(self.sstables@, list));
        }
        assert(present(map, ids_of(outputs)) && resolve(map, ids_of(outputs)) =~= outputs) by {
            assert forall|i: int| 0 <= i < outputs.len() implies map.contains_key(
                #[trigger] ids_of(outputs)[i],
            ) && map[ids_of(outputs)[i]] == outputs[i] by {
                assert(map.contains_key(outputs[i].id_spec()));
            }
        }
        assert(present(self.sstables@, lower));
        assert(resolve(self.sstables@, lower) =~= lowers);
        let new_lower = lower.take(from) + ids_of(outputs) + lower.skip(to);
        assert forall|i: int| 0 <= i < new_lower.len() implies map.contains_key(
            #[trigger] new_lower[i],
        ) by {
            if i < from {
                assert(self.sstables@.contains_key(lower[i]));
                assert(add_tables(self.sstables@, outputs).contains_key(lower[i]));
            } else if i < from + outputs.len() {
                assert(new_lower[i] == ids_of(outputs)[i - from]);
            } else {
                let y = i - from - outputs.len() + to;
                assert(new_lower[i] == lower[y]);
                assert(self.sstables@.contains_key(lower[y]));
                assert(add_tables(self.sstables@, outputs).contains_key(lower[y]));
            }
        }
        assert forall|i: int| 0 <= i < new_lower.len() implies resolve(map, new_lower)[i] == (
        lowers.take(from) + outputs + lowers.skip(to))[i] by {
            if i < from {
                assert(self.sstables@.contains_key(lower[i]));
                assert(add_tables(self.sstables@, outputs).contains_key(lower[i]));
            } else if i < from + outputs.len() {
                assert(new_lower[i] == ids_of(outputs)[i - from]);
            } else {
                let y = i - from - outputs.len() + to;
                assert(new_lower[i] == lower[y]);
                assert(self.sstables@.contains_key(lower[y]));
                assert(add_tables(self.sstables@, outputs).contains_key(lower[y]));
            }
        }
        assert(resolve(map, new_lower) =~= lowers.take(from) + outputs + lowers.skip(to));
        self.lemma_descended_lower(plan, outputs);
        assert forall|j: int| 0 <= j < tiers.len() implies present(map, (#[trigger] tiers[j]).1)
            && tables_ordered(resolve(map, tiers[j].1)) by {
            assert(tiers[j].1 == levels[j].1@);
            if j == lo {
            } else if !plan.from_l0 && j == plan.upper {
                let upper = self.levels@[j].1@;
                let at = plan.at as int;
                let uppers = self.tables_of(upper);
                self.lemma_level(j);
                self.lemma_descended_upper(plan);
                let new_upper = upper.take(at) + upper.skip(at + 1);
                assert(present(self.sstables@, upper));
                assert forall|i: int| 0 <= i < new_upper.len() implies map.contains_key(
                    #[trigger] new_upper[i],
                ) && map[new_upper[i]] == (uppers.take(at) + uppers.skip(at + 1))[i] by {
                    let y = if i < at {
                        i
                    } else {
                        i + 1
                    };
                    assert(new_upper[i] == upper[y]);
                    assert(self.sstables@.contains_key(upper[y]));
                    assert(add_tables(self.sstables@, outputs).contains_key(upper[y]));
                }
                assert(resolve(map, new_upper) =~= uppers.take(at) + uppers.skip(at + 1));
            } else {
                assert(levels[j].1@ == self.levels@[j].1@);
                self.lemma_level(j);
                assert(present(self.sstables@, self.levels@[j].1@));
                assert(resolve(self.sstables@, self.levels@[j].1@) =~= self.tables_of(
                    self.levels@[j].1@,
                ));
            }
        }
        if !plan.from_l0 {
            assert(present(self.sstables@, l0));
            assert(resolve(self.sstables@, l0) =~= self.tables_of(self.l0_sstables@));
            assert forall|i: int| 0 <= i < l0.len() implies (#[trigger] resolve(map, l0)[i]).wf() by {
                assert(self.tables_of(self.l0_sstables@)[i].wf());
            }
        }
        assert forall|i: int| 0 <= i < outputs.len() implies ids.contains(
            (#[trigger] outputs[i]).id_spec(),
        ) by {
            assert(tiers[lo].1[from + i] == outputs[i].id_spec()) by {
                assert(new_lower[from + i] == ids_of(outputs)[i]);
            }
            lemma_all_ids_member(tiers, lo, from + i);
            let at = choose|at: int|
                0 <= at < all_ids(tiers).len() && all_ids(tiers)[at] == tiers[lo].1[from + i];
            assert(ids[l0.len() + at] == outputs[i].id_spec());
        }
        assert forall|id: usize|
            self.sstables@.contains_key(id) && !self.plan_ids(plan).contains(
                id,
            ) implies ids.contains(id) by {
            let inputs = self.plan_ids(plan);
            let head = if plan.from_l0 {
                self.l0_sstables@
            } else {
                seq![self.levels@[plan.upper as int].1@[plan.at as int]]
            };
            assert(self.table_ids().contains(id));
            let at = choose|at: int| 0 <= at < self.table_ids().len() && self.table_ids()[at] == id;
            let n0 = self.l0_sstables@.len() as int;
            if at < n0 {
                if plan.from_l0 {
                    assert(inputs[at] == id);
                } else {
                    assert(ids[at] == id);
                }
            } else {
                lemma_all_ids_source(old_tiers, at - n0);
                let (x, y) = choose|x: int, y: int|
                    0 <= x < old_tiers.len() && 0 <= y < old_tiers[x].1.len() && all_ids(
                        old_tiers,
                    )[at - n0] == #[trigger] old_tiers[x].1[y];
                assert(old_tiers[x].1 == self.levels@[x].1@);
                let z: int = if x == lo {
                    if y < from {
                        y
                    } else {
                        y - to + from + outputs.len()
                    }
                } else if !plan.from_l0 && x == plan.upper {
                    if y < plan.at {
                        y
                    } else {
                        y - 1
                    }
                } else {
                    y
                };
                if x == lo && from <= y < to {
                    assert(lower.subrange(from, to)[y - from] == id);
                    assert(inputs[head.len() + y - from] == id);
                } else if !plan.from_l0 && x == plan.upper && y == plan.at {
                    assert(inputs[0] == id);
                } else {
                    assert(tiers[x].1 == levels[x].1@);
                    assert(tiers[x].1[z] == id);
                    lemma_all_ids_member(tiers, x, z);
                    let w = choose|w: int|
                        0 <= w < all_ids(tiers).len() && all_ids(tiers)[w] == tiers[x].1[z];
                    assert(ids[l0.len() + w] == id);
                }
            }
        }
    }
}

/// What one layer holds for a key.
pub proof fn lemma_one_layer(run: Seq<Entry>, k: Seq<u8>)
    ensures
        first_some(seq![run], k) == lookup(run, k),
{
    let one = seq![run];
    assert(one.skip(1) =~= Seq::<Seq<Entry>>::empty());
    assert(first_some(one.skip(1), k) is None);
}

/// Moving the tables of level 0 down into a part of a level, over empty
/// levels, changes nothing for a reader.
pub proof fn lemma_descend_l0(
    mem: Seq<Seq<Entry>>,
    l0: Seq<Seq<Entry>>,
    q: Seq<Seq<Entry>>,
    bb: Seq<Entry>,
    o: Seq<Entry>,
    x: Seq<Entry>,
    ba: Seq<Entry>,
    s: Seq<Seq<Entry>>,
    k: Seq<u8>,
    drop_tombstones: bool,
)
    requires
        all_empty(q),
        lookup(x, k) == merged(l0 + seq![o], drop_tombstones, k),
        first_some(l0 + seq![o], k) is Some ==> lookup(bb, k) is None && lookup(ba, k) is None,
        drop_tombstones ==> all_empty(s),
    ensures
        visible(first_some(mem + q + seq![bb + x + ba] + s, k)) == visible(
            first_some(mem + l0 + q + seq![bb + o + ba] + s, k),
        ),
{
    let old_b = seq![bb + o + ba];
    let new_b = seq![bb + x + ba];
    lemma_one_layer(bb + o + ba, k);
    lemma_one_layer(bb + x + ba, k);
    lemma_one_layer(o, k);
    lemma_lookup_joined(bb + o, ba, k);
    lemma_lookup_joined(bb, o, k);
    lemma_lookup_joined(bb + x, ba, k);
    lemma_lookup_joined(bb, x, k);
    lemma_none_in_empty(q, k);
    if drop_tombstones {
        lemma_none_in_empty(s, k);
    }
    lemma_first_some_concat(l0, seq![o], k);
    lemma_first_some_concat(mem + l0 + q + old_b, s, k);
    lemma_first_some_concat(mem + l0 + q, old_b, k);
    lemma_first_some_concat(mem + l0, q, k);
    lemma_first_some_concat(mem, l0, k);
    lemma_first_some_concat(mem + q + new_b, s, k);
    lemma_first_some_concat(mem + q, new_b, k);
    lemma_first_some_concat(mem, q, k);
    lemma_descended(
        first_some(mem, k),
        None,
        first_some(l0, k),
        None,
        lookup(bb, k),
        lookup(o, k),
        lookup(ba, k),
        first_some(s, k),
        lookup(x, k),
        drop_tombstones,
    );
}

/// Moving a table of a level down into a part of the next level changes
/// nothing for a reader.
pub proof fn lemma_descend_level(
    head: Seq<Seq<Entry>>,
    tb: Seq<Entry>,
    t: Seq<Entry>,
    ta: Seq<Entry>,
    bb: Seq<Entry>,
    o: Seq<Entry>,
    x: Seq<Entry>,
    ba: Seq<Entry>,
    s: Seq<Seq<Entry>>,
    k: Seq<u8>,
    drop_tombstones: bool,
)
    requires
        crate::run::keys_ascending(tb + t + ta),
        lookup(x, k) == merged(seq![t] + seq![o], drop_tombstones, k),
        first_some(seq![t] + seq![o], k) is Some ==> lookup(bb, k) is None && lookup(ba, k) is None,
        drop_tombstones ==> all_empty(s),
    ensures
        visible(first_some(head + seq![tb + ta] + seq![bb + x + ba] + s, k)) == visible(
            first_some(head + seq![tb + t + ta] + seq![bb + o + ba] + s, k),
        ),
{
    let old_b = seq![bb + o + ba];
    let new_b = seq![bb + x + ba];
    let old_t = seq![tb + t + ta];
    let new_t = seq![tb + ta];
    lemma_one_layer(bb + o + ba, k);
    lemma_one_layer(bb + x + ba, k);
    lemma_one_layer(tb + t + ta, k);
    lemma_one_layer(tb + ta, k);
    lemma_one_layer(o, k);
    lemma_one_layer(t, k);
    lemma_lookup_joined(bb + o, ba, k);
    lemma_lookup_joined(bb, o, k);
    lemma_lookup_joined(bb + x, ba, k);
    lemma_lookup_joined(bb, x, k);
    lemma_lookup_joined(tb + t, ta, k);
    lemma_lookup_joined(tb, t, k);
    lemma_lookup_joined(tb, ta, k);
    lemma_lookup_joined(t, ta, k);
    assert(tb + t + ta =~= tb + (t + ta));
    lemma_parts_disjoint(tb, t + ta, k);
    lemma_parts_disjoint(tb + t, ta, k);
    if drop_tombstones {
        lemma_none_in_empty(s, k);
    }
    lemma_first_some_concat(seq![t], seq![o], k);
    lemma_first_some_concat(head + old_t + old_b, s, k);
    lemma_first_some_concat(head + old_t, old_b, k);
    lemma_first_some_concat(head, old_t, k);
    lemma_first_some_concat(head + new_t + new_b, s, k);
    lemma_first_some_concat(head + new_t, new_b, k);
    lemma_first_some_concat(head, new_t, k);
    lemma_descended(
        first_some(head, k),
        lookup(tb, k),
        lookup(t, k),
        lookup(ta, k),
        lookup(bb, k),
        lookup(o, k),
        lookup(ba, k),
        first_some(s, k),
        lookup(x, k),
        drop_tombstones,
    );
}

/// A key that lies behind the runs before a part of ordered runs, and
/// before the runs behind the part, occurs in neither.
pub proof fn lemma_apart(runs: Seq<Seq<Entry>>, from: int, to: int, k: Seq<u8>)
    requires
        runs_ordered(runs),
        0 <= from <= to <= runs.len(),
        from > 0 ==> key_lt(runs[from - 1].last().0, k),
        to < runs.len() ==> key_lt(k, runs[to][0].0),
    ensures
        lookup(concat_runs(runs.subrange(0, from)), k) is None,
        lookup(concat_runs(runs.subrange(to, runs.len() as int)), k) is None,
{
    let n = runs.len() as int;
    let before = runs.subrange(0, from);
    let after = runs.subrange(to, n);
    lemma_ordered_subrange(runs, 0, from);
    lemma_ordered_subrange(runs, to, n);
    lemma_concat_is_run(before);
    lemma_concat_is_run(after);
    if lookup(concat_runs(before), k) is Some {
        lemma_key_range(concat_runs(before), k);
        assert(before.len() > 0);
        assert(before.last() == runs[from - 1]);
        lemma_key_le_lt(k, runs[from - 1].last().0, k);
    }
    if lookup(concat_runs(after), k) is Some {
        lemma_key_range(concat_runs(after), k);
        assert(after.len() > 0);
        assert(after[0] == runs[to]);
        lemma_key_le_lt(runs[to][0].0, k, k);
    }
}

impl LsmStorageState {
    /// The entries of the tables of the lower level before the lower
    /// tables of a plan.
    pub open spec fn lower_before(&self, plan: Plan) -> Seq<Entry> {
        concat_runs(table_runs(self.plan_lowers(plan)).subrange(0, plan.from as int))
    }

    /// The entries of the lower tables of a plan.
    pub open spec fn lower_part(&self, plan: Plan) -> Seq<Entry> {
        concat_runs(table_runs(self.plan_lowers(plan)).subrange(plan.from as int, plan.to as int))
    }

    /// The entries of the tables of the lower level behind the lower
    /// tables of a plan.
    pub open spec fn lower_after(&self, plan: Plan) -> Seq<Entry> {
        concat_runs(
            table_runs(self.plan_lowers(plan)).subrange(
                plan.to as int,
                self.plan_lowers(plan).len() as int,
            ),
        )
    }

    /// The entries of the tables of the upper level.
    pub open spec fn upper_runs(&self, plan: Plan) -> Seq<Seq<Entry>> {
        table_runs(self.tables_of(self.levels@[plan.upper as int].1@))
    }

    /// The entries of the tables of the upper level before the upper table
    /// of a plan.
    pub open spec fn upper_before(&self, plan: Plan) -> Seq<Entry> {
        concat_runs(self.upper_runs(plan).subrange(0, plan.at as int))
    }

    /// The entries of the tables of the upper level behind the upper table
    /// of a plan.
    pub open spec fn upper_after(&self, plan: Plan) -> Seq<Entry> {
        concat_runs(
            self.upper_runs(plan).subrange(plan.at + 1, self.upper_runs(plan).len() as int),
        )
    }

    /// No key of the tables that a plan reads occurs in the tables of the
    /// lower level before or behind the lower tables.
    pub proof fn lemma_inputs_apart(&self, plan: Plan, k: Seq<u8>)
        requires
            self.wf(),
            self.plan_fits(plan),
            first_some(self.plan_layers(plan), k) is Some,
        ensures
            lookup(self.lower_before(plan), k) is None,
            lookup(self.lower_after(plan), k) is None,
    {
        self.lemma_level(plan.lower as int);
        self.lemma_input_keys(plan, k);
        lemma_apart(
            table_runs(self.plan_lowers(plan)),
            plan.from as int,
            plan.to as int,
            k,
        );
    }

    /// The tables that a state after a plan names for a list of ids of this
    /// state are those that this state names.
    pub proof fn lemma_descended_same(
        &self,
        other: LsmStorageState,
        outputs: Seq<Arc<SsTable>>,
        first: int,
        list: Seq<usize>,
    )
        requires
            self.ids_present(list),
            ids_from(outputs, first),
            forall|id: usize| self.sstables@.contains_key(id) ==> id < first,
            forall|i: int|
                0 <= i < list.len() ==> other.sstables@[#[trigger] list[i]] == add_tables(
                    self.sstables@,
                    outputs,
                )[list[i]],
        ensures
            other.tables_of(list) == self.tables_of(list),
    {
        lemma_add_tables(self.sstables@, outputs, first);
        assert forall|i: int| 0 <= i < list.len() implies other.sstables@[#[trigger] list[i]]
            == self.sstables@[list[i]] by {
            assert(self.sstables@.contains_key(list[i]));
            assert(add_tables(self.sstables@, outputs).contains_key(list[i]));
        }
        other.lemma_same_tables(*self, list);
    }

    /// The lower level of a state after a plan holds the new tables in the
    /// place of the lower tables.
    pub proof fn lemma_descended_lower_run(
        &self,
        other: LsmStorageState,
        plan: Plan,
        outputs: Seq<Arc<SsTable>>,
        first: int,
    )
        requires
            self.wf(),
            self.plan_fits(plan),
            self.descended(plan, other.l0_sstables@, other.levels@, outputs),
            ids_from(outputs, first),
            forall|id: usize| self.sstables@.contains_key(id) ==> id < first,
            forall|id: usize|
                #[trigger] other.table_ids().contains(id) ==> other.sstables@.contains_key(id)
                    && other.sstables@[id] == add_tables(self.sstables@, outputs)[id],
        ensures
            other.level_run(plan.lower as int) == self.lower_before(plan) + concat_runs(
                table_runs(outputs),
            ) + self.lower_after(plan),
            self.level_run(plan.lower as int) == self.lower_before(plan) + self.lower_part(plan)
                + self.lower_after(plan),
    {
        let map = add_tables(self.sstables@, outputs);
        lemma_add_tables(self.sstables@, outputs, first);
        other.lemma_table_ids();
        let lo = plan.lower as int;
        let from = plan.from as int;
        let to = plan.to as int;
        let lower = self.levels@[lo].1@;
        let lowers = self.plan_lowers(plan);
        let runs = table_runs(lowers);
        let n = lowers.len() as int;
        let before = runs.subrange(0, from);
        let part = runs.subrange(from, to);
        let after = runs.subrange(to, n);
        self.lemma_level(lo);
        let new_lower = other.levels@[lo].1@;
        assert forall|i: int| 0 <= i < new_lower.len() implies other.tables_of(new_lower)[i] == (
        lowers.take(from) + outputs + lowers.skip(to))[i] by {
            assert(other.table_ids().contains(other.levels@[lo].1@[i]));
            if i < from {
                assert(new_lower[i] == lower[i]);
                assert(self.sstables@.contains_key(lower[i]));
                assert(add_tables(self.sstables@, outputs).contains_key(lower[i]));
            } else if i < from + outputs.len() {
                assert(new_lower[i] == ids_of(outputs)[i - from]);
                assert(map[outputs[i - from].id_spec()] == outputs[i - from]);
            } else {
                let y = i - from - outputs.len() + to;
                assert(new_lower[i] == lower[y]);
                assert(self.sstables@.contains_key(lower[y]));
                assert(add_tables(self.sstables@, outputs).contains_key(lower[y]));
            }
        }
        assert(other.tables_of(new_lower) =~= lowers.take(from) + outputs + lowers.skip(to));
        assert(table_runs(lowers.take(from) + outputs + lowers.skip(to)) =~= before + table_runs(
            outputs,
        ) + after);
        lemma_concat_add(before + table_runs(outputs), after);
        lemma_concat_add(before, table_runs(outputs));
        assert(runs =~= before + part + after);
        lemma_concat_add(before + part, after);
        lemma_concat_add(before, part);
    }

    /// The upper level of a state after a plan holds its tables without
    /// the upper table.
    pub proof fn lemma_descended_upper_run(
        &self,
        other: LsmStorageState,
        plan: Plan,
        outputs: Seq<Arc<SsTable>>,
        first: int,
    )
        requires
            self.wf(),
            self.plan_fits(plan),
            !plan.from_l0,
            self.descended(plan, other.l0_sstables@, other.levels@, outputs),
            ids_from(outputs, first),
            forall|id: usize| self.sstables@.contains_key(id) ==> id < first,
            forall|id: usize|
                #[trigger] other.table_ids().contains(id) ==> other.sstables@.contains_key(id)
                    && other.sstables@[id] == add_tables(self.sstables@, outputs)[id],
        ensures
            other.level_run(plan.upper as int) == self.upper_before(plan) + self.upper_after(plan),
            self.level_run(plan.upper as int) == self.upper_before(plan) + self.upper_runs(
                plan,
            )[plan.at as int] + self.upper_after(plan),
            table_runs(self.plan_uppers(plan)) == seq![self.upper_runs(plan)[plan.at as int]],
    {
        lemma_add_tables(self.sstables@, outputs, first);
        other.lemma_table_ids();
        let up = plan.upper as int;
        let at = plan.at as int;
        let upper = self.levels@[up].1@;
        let uppers = self.tables_of(upper);
        let truns = table_runs(uppers);
        let m = truns.len() as int;
        self.lemma_level(up);
        let new_upper = other.levels@[up].1@;
        assert forall|i: int| 0 <= i < new_upper.len() implies other.tables_of(new_upper)[i] == (
        uppers.take(at) + uppers.skip(at + 1))[i] by {
            assert(other.table_ids().contains(other.levels@[up].1@[i]));
            let y = if i < at {
                i
            } else {
                i + 1
            };
            assert(new_upper[i] == upper[y]);
            assert(self.sstables@.contains_key(upper[y]));
            assert(add_tables(self.sstables@, outputs).contains_key(upper[y]));
        }
        assert(other.tables_of(new_upper) =~= uppers.take(at) + uppers.skip(at + 1));
        assert(table_runs(uppers.take(at) + uppers.skip(at + 1)) =~= truns.subrange(0, at)
            + truns.subrange(at + 1, m));
        assert(truns =~= truns.subrange(0, at) + seq![truns[at]] + truns.subrange(at + 1, m));
        lemma_concat_add(truns.subrange(0, at) + seq![truns[at]], truns.subrange(at + 1, m));
        lemma_concat_add(truns.subrange(0, at), seq![truns[at]]);
        lemma_concat_add(truns.subrange(0, at), truns.subrange(at + 1, m));
        crate::run::lemma_concat_one(truns[at]);
        assert(table_runs(self.plan_uppers(plan)) =~= seq![truns[at]]);
    }

    /// The levels that a plan leaves alone hold in the state after it what
    /// they held, and so do the memtables, and level 0 where its tables did
    /// not go down.
    pub proof fn lemma_descended_frame(
        &self,
        other: LsmStorageState,
        plan: Plan,
        outputs: Seq<Arc<SsTable>>,
        first: int,
    )
        requires
            self.wf(),
            self.plan_fits(plan),
            self.descended(plan, other.l0_sstables@, other.levels@, outputs),
            other.memtable == self.memtable,
            other.imm_memtables == self.imm_memtables,
            ids_from(outputs, first),
            forall|id: usize| self.sstables@.contains_key(id) ==> id < first,
            forall|id: usize|
                #[trigger] other.table_ids().contains(id) ==> other.sstables@.contains_key(id)
                    && other.sstables@[id] == add_tables(self.sstables@, outputs)[id],
        ensures
            other.mem_runs() == self.mem_runs(),
            other.level_runs().len() == self.level_runs().len(),
            forall|j: int|
                0 <= j < self.level_runs().len() && j != plan.lower && (plan.from_l0 || j
                    != plan.upper) ==> #[trigger] other.level_runs()[j] == self.level_runs()[j],
            plan.from_l0 ==> other.l0_runs().len() == 0,
            !plan.from_l0 ==> other.l0_runs() == self.l0_runs(),
    {
        other.lemma_table_ids();
        let lv = self.level_runs();
        let nv = other.level_runs();
        assert forall|j: int|
            0 <= j < lv.len() && j != plan.lower && (plan.from_l0 || j
                != plan.upper) implies #[trigger] nv[j] == lv[j] by {
            let list = self.levels@[j].1@;
            assert(other.levels@[j].1@ == list);
            self.lemma_level(j);
            assert forall|i: int| 0 <= i < list.len() implies other.sstables@[#[trigger] list[i]]
                == add_tables(self.sstables@, outputs)[list[i]] by {
                assert(other.levels@[j].1@[i] == list[i]);
                assert(other.table_ids().contains(other.levels@[j].1@[i]));
            }
            self.lemma_descended_same(other, outputs, first, list);
        }
        assert(other.mem_runs() =~= self.mem_runs());
        if !plan.from_l0 {
            assert(other.l0_sstables@ == self.l0_sstables@);
            assert forall|i: int| 0 <= i < self.l0_sstables@.len() implies other.sstables@[
                #[trigger] self.l0_sstables@[i]] == add_tables(
                self.sstables@,
                outputs,
            )[self.l0_sstables@[i]] by {
                assert(other.l0_sstables@[i] == self.l0_sstables@[i]);
                assert(other.table_ids().contains(other.l0_sstables@[i]));
            }
            self.lemma_descended_same(other, outputs, first, self.l0_sstables@);
        }
    }

    /// The state `other` is this state after the plan was carried out with
    /// the new tables `outputs`.
    #[verifier::opaque]
    pub open spec fn descent(
        &self,
        other: LsmStorageState,
        plan: Plan,
        outputs: Seq<Arc<SsTable>>,
        first: int,
        drop_tombstones: bool,
    ) -> bool {
        &&& self.wf()
        &&& other.wf()
        &&& self.plan_fits(plan)
        &&& self.descended(plan, other.l0_sstables@, other.levels@, outputs)
        &&& other.memtable == self.memtable
        &&& other.imm_memtables == self.imm_memtables
        &&& tables_ordered(outputs)
        &&& ids_from(outputs, first)
        &&& forall|id: usize| self.sstables@.contains_key(id) ==> id < first
        &&& forall|id: usize|
            #[trigger] other.table_ids().contains(id) ==> other.sstables@.contains_key(id)
                && other.sstables@[id] == add_tables(self.sstables@, outputs)[id]
        &&& drop_tombstones ==> forall|j: int|
            plan.lower < j < self.levels@.len() ==> (#[trigger] self.levels@[j]).1@.len() == 0
        &&& forall|k: Seq<u8>|
            #[trigger] lookup(concat_runs(table_runs(outputs)), k) == merged(
                self.plan_layers(plan),
                drop_tombstones,
                k,
            )
    }

    /// What a descent says of the levels: how the lower and the upper
    /// level are made up before and after, and that the layers beside
    /// them are as they were.
    pub proof fn lemma_descent_levels(
        &self,
        other: LsmStorageState,
        plan: Plan,
        outputs: Seq<Arc<SsTable>>,
        first: int,
        drop_tombstones: bool,
    )
        requires
            self.descent(other, plan, outputs, first, drop_tombstones),
        ensures
            plan.lower < self.level_runs().len(),
            other.level_runs().len() == self.level_runs().len(),
            other.mem_runs() == self.mem_runs(),
            other.level_runs()[plan.lower as int] == self.lower_before(plan) + concat_runs(
                table_runs(outputs),
            ) + self.lower_after(plan),
            self.level_runs()[plan.lower as int] == self.lower_before(plan) + self.lower_part(plan)
                + self.lower_after(plan),
            forall|j: int|
                0 <= j < self.level_runs().len() && j != plan.lower && (plan.from_l0 || j
                    != plan.upper) ==> #[trigger] other.level_runs()[j] == self.level_runs()[j],
            drop_tombstones ==> all_empty(self.level_runs().skip(plan.lower + 1)),
            plan.from_l0 ==> other.l0_runs().len() == 0 && all_empty(
                self.level_runs().take(plan.lower as int),
            ) && self.plan_layers(plan) == self.l0_runs() + seq![self.lower_part(plan)],
            !plan.from_l0 ==> {
                &&& other.l0_runs() == self.l0_runs()
                &&& plan.upper + 1 == plan.lower
                &&& crate::run::keys_ascending(self.level_runs()[plan.upper as int])
                &&& other.level_runs()[plan.upper as int] == self.upper_before(plan)
                    + self.upper_after(plan)
                &&& self.level_runs()[plan.upper as int] == self.upper_before(plan)
                    + self.upper_runs(plan)[plan.at as int] + self.upper_after(plan)
                &&& self.plan_layers(plan) == seq![self.upper_runs(plan)[plan.at as int]] + seq![
                    self.lower_part(plan),
                ]
            },
    {
        reveal(LsmStorageState::descent);
        self.lemma_descended_lower_run(other, plan, outputs, first);
        self.lemma_descended_frame(other, plan, outputs, first);
        self.lemma_empty_levels(plan.lower + 1);
        assert(table_runs(self.plan_lowers(plan).subrange(plan.from as int, plan.to as int))
            =~= table_runs(self.plan_lowers(plan)).subrange(plan.from as int, plan.to as int));
        if plan.from_l0 {
            self.lemma_empty_levels_before(plan.lower as int);
            assert(other.l0_runs() =~= Seq::<Seq<Entry>>::empty());
        } else {
            self.lemma_descended_upper_run(other, plan, outputs, first);
            self.lemma_layers();
            assert(is_run(self.level_runs()[plan.upper as int]));
        }
    }

    /// What a descent says of a key: what the new tables hold for it, and
    /// that a key of the tables that were read occurs in no table of the
    /// lower level beside the lower tables.
    pub proof fn lemma_descent_key(
        &self,
        other: LsmStorageState,
        plan: Plan,
        outputs: Seq<Arc<SsTable>>,
        first: int,
        drop_tombstones: bool,
        k: Seq<u8>,
    )
        requires
            self.descent(other, plan, outputs, first, drop_tombstones),
        ensures
            lookup(concat_runs(table_runs(outputs)), k) == merged(
                self.plan_layers(plan),
                drop_tombstones,
                k,
            ),
            first_some(self.plan_layers(plan), k) is Some ==> lookup(self.lower_before(plan), k)
                is None && lookup(self.lower_after(plan), k) is None,
    {
        reveal(LsmStorageState::descent);
        if first_some(self.plan_layers(plan), k) is Some {
            self.lemma_inputs_apart(plan, k);
        }
    }

    /// After a plan was carried out a reader gets what it got before.
    #[verifier::rlimit(30)]
    pub proof fn lemma_descended_content(
        &self,
        other: LsmStorageState,
        plan: Plan,
        outputs: Seq<Arc<SsTable>>,
        first: int,
        drop_tombstones: bool,
    )
        requires
            self.descent(other, plan, outputs, first, drop_tombstones),
        ensures
            forall|k: Seq<u8>| #[trigger] other.get_spec(k) == self.get_spec(k),
    {
        let lo = plan.lower as int;
        let up = plan.upper as int;
        let x = concat_runs(table_runs(outputs));
        let lv = self.level_runs();
        let nv = other.level_runs();
        let s = lv.skip(lo + 1);
        let bb = self.lower_before(plan);
        let o = self.lower_part(plan);
        let ba = self.lower_after(plan);
        self.lemma_descent_levels(other, plan, outputs, first, drop_tombstones);
        assert(nv.skip(lo + 1) =~= s);
        if plan.from_l0 {
            let q = lv.take(lo);
            assert(other.l0_runs() =~= Seq::<Seq<Entry>>::empty());
            assert(nv.take(lo) =~= q);
            assert(lv =~= q + seq![bb + o + ba] + s);
            assert(nv =~= q + seq![bb + x + ba] + s);
            assert(self.layers() =~= self.mem_runs() + self.l0_runs() + q + seq![bb + o + ba] + s);
            assert(other.layers() =~= self.mem_runs() + q + seq![bb + x + ba] + s);
            assert forall|k: Seq<u8>| #[trigger] other.get_spec(k) == self.get_spec(k) by {
                self.lemma_descent_key(other, plan, outputs, first, drop_tombstones, k);
                lemma_descend_l0(
                    self.mem_runs(),
                    self.l0_runs(),
                    q,
                    bb,
                    o,
                    x,
                    ba,
                    s,
                    k,
                    drop_tombstones,
                );
            }
        } else {
            let tb = self.upper_before(plan);
            let ta = self.upper_after(plan);
            let t = self.upper_runs(plan)[plan.at as int];
            let head = self.mem_runs() + self.l0_runs() + lv.take(up);
            assert(nv.take(up) =~= lv.take(up));
            assert(lv =~= lv.take(up) + seq![tb + t + ta] + seq![bb + o + ba] + s);
            assert(nv =~= lv.take(up) + seq![tb + ta] + seq![bb + x + ba] + s);
            assert(self.layers() =~= head + seq![tb + t + ta] + seq![bb + o + ba] + s);
            assert(other.layers() =~= head + seq![tb + ta] + seq![bb + x + ba] + s);
            assert forall|k: Seq<u8>| #[trigger] other.get_spec(k) == self.get_spec(k) by {
                self.lemma_descent_key(other, plan, outputs, first, drop_tombstones, k);
                lemma_descend_level(head, tb, t, ta, bb, o, x, ba, s, k, drop_tombstones);
            }
        }
    }

    /// Levels without tables hold no entries.
    pub proof fn lemma_empty_levels(&self, from: int)
        requires
            0 <= from <= self.levels@.len(),
        ensures
            (forall|j: int| from <= j < self.levels@.len() ==> (#[trigger] self.levels@[j]).1@.len() == 0)
                ==> all_empty(self.level_runs().skip(from)),
    {
        let s = self.level_runs().skip(from);
        if forall|j: int| from <= j < self.levels@.len() ==> (#[trigger] self.levels@[j]).1@.len() == 0 {
            assert forall|j: int| 0 <= j < s.len() implies (#[trigger] s[j]).len() == 0 by {
                assert(self.levels@[from + j].1@.len() == 0);
                assert(table_runs(self.tables_of(self.levels@[from + j].1@)) =~= Seq::<
                    Seq<Entry>,
                >::empty());
            }
        }
    }

    /// Levels without tables hold no entries.
    pub proof fn lemma_empty_levels_before(&self, to: int)
        requires
            0 <= to <= self.levels@.len(),
            forall|j: int| 0 <= j < to ==> (#[trigger] self.levels@[j]).1@.len() == 0,
        ensures
            all_empty(self.level_runs().take(to)),
    {
        let q = self.level_runs().take(to);
        assert forall|j: int| 0 <= j < q.len() implies (#[trigger] q[j]).len() == 0 by {
            assert(self.levels@[j].1@.len() == 0);
            assert(table_runs(self.tables_of(self.levels@[j].1@)) =~= Seq::<Seq<Entry>>::empty());
        }
    }
}

/// The tables from position `from` up to position `to`.
fn tables_part(tables: &Vec<Arc<SsTable>>, from: usize, to: usize) -> (r: Vec<Arc<SsTable>>)
    requires
        from <= to <= tables@.len(),
    ensures
        r@ == tables@.subrange(from as int, to as int),
{
    let mut r: Vec<Arc<SsTable>> = Vec::new();
    let mut i: usize = from;
    while i < to
        invariant
            from <= i <= to <= tables@.len(),
            r@ == tables@.subrange(from as int, i as int),
        decreases to - i,
    {
        r.push(share(&tables[i]));
        assert(r@ =~= tables@.subrange(from as int, i + 1));
        i += 1;
    }
    r
}

impl LsmStorageState {
    /// The upper tables of a plan.
    fn uppers_of(&self, plan: &Plan) -> (r: Vec<Arc<SsTable>>)
        requires
            self.wf(),
            self.plan_fits(*plan),
        ensures
            r@ == self.plan_uppers(*plan),
            forall|i: int| 0 <= i < r@.len() ==> (#[trigger] r@[i]).wf(),
    {
        if plan.from_l0 {
            let r = self.tables(&self.l0_sstables);
            proof {
                assert forall|i: int| 0 <= i < r@.len() implies (#[trigger] r@[i]).wf() by {
                    assert(self.tables_of(self.l0_sstables@)[i].wf());
                }
            }
            r
        } else {
            proof {
                self.lemma_level(plan.upper as int);
            }
            let id = self.levels[plan.upper].1[plan.at];
            assert(self.sstables@.contains_key(self.levels@[plan.upper as int].1@[plan.at as int]));
            let mut r: Vec<Arc<SsTable>> = Vec::new();
            r.push(self.table(id));
            assert(r@ =~= self.plan_uppers(*plan));
            assert(self.tables_of(self.levels@[plan.upper as int].1@)[plan.at as int].wf());
            r
        }
    }
}

impl LsmStorageState {
    /// The entries of the tables that a plan reads, merged: an entry of an
    /// upper table comes before one of a lower table, and one of a newer
    /// upper table before one of an older.
    pub open spec fn plan_entries(&self, plan: Plan) -> Seq<Entry> {
        merge2(
            merge_all(table_runs(self.plan_uppers(plan))),
            concat_runs(
                table_runs(self.plan_lowers(plan).subrange(plan.from as int, plan.to as int)),
            ),
        )
    }
}

impl LsmStorageInner {
    /// What carrying out a plan writes: the entries of its tables, without
    /// the tombstones where the plan reaches the last level (`bottom`) and
    /// no level further down holds a table.
    pub open(crate) spec fn plan_output(&self, plan: Plan, bottom: bool) -> Seq<Entry> {
        kept(self.state.plan_entries(plan), bottom && self.state.empty_from(plan.lower + 1))
    }

    /// Merges the tables of a plan into new tables of a target size: the
    /// upper tables are merged, as they may overlap, and the lower tables
    /// are read as one run. With `bottom`, tombstones are dropped where no
    /// level further down holds a table. The state does not change.
    pub(crate) fn merge_plan(&mut self, plan: Plan, bottom: bool) -> (r: Result<
        Vec<Arc<SsTable>>,
        Error,
    >)
        requires
            old(self).wf(),
            old(self).state.plan_fits(plan),
        ensures
            final(self).wf(),
            final(self).state == old(self).state,
            final(self).options == old(self).options,
            final(self).compaction_controller == old(self).compaction_controller,
            final(self).next_sst_id >= old(self).next_sst_id,
            r is Ok <==> old(self).can_write(old(self).plan_output(plan, bottom)),
            r matches Err(e) ==> e == Error::TooLarge,
            r matches Ok(tables) ==> {
                &&& tables_ordered(tables@)
                &&& ids_from(tables@, old(self).next_sst_id as int)
                &&& final(self).next_sst_id == old(self).next_sst_id + tables@.len()
                &&& table_runs(tables@) == old(self).split(old(self).plan_output(plan, bottom))
                &&& forall|k: Seq<u8>|
                    #[trigger] lookup(concat_runs(table_runs(tables@)), k) == merged(
                        old(self).state.plan_layers(plan),
                        bottom && old(self).state.empty_from(plan.lower + 1),
                        k,
                    )
            },
    {
        let ghost before = self.state;
        let lo = plan.lower;
        let drop_tombstones = bottom && lo < usize::MAX && self.state.levels_empty_from(lo + 1);
        let ghost first = self.next_sst_id as int;
        proof {
            before.lemma_level(lo as int);
        }
        let uppers = self.state.uppers_of(&plan);
        let lowers = self.state.tables(&self.state.levels[lo].1);
        let part = tables_part(&lowers, plan.from, plan.to);
        let ghost upper_runs = table_runs(uppers@);
        let ghost lower_run = concat_runs(table_runs(part@));
        proof {
            lemma_ordered_subrange(table_runs(lowers@), plan.from as int, plan.to as int);
            assert(table_runs(part@) =~= table_runs(lowers@).subrange(
                plan.from as int,
                plan.to as int,
            ));
            assert forall|i: int| 0 <= i < part@.len() implies (#[trigger] part@[i]).wf() by {
                assert(lowers@[plan.from + i].wf());
            }
        }
        let upper = MergeIterator::create(iters_of(&uppers));
        let lower = SstConcatIterator::create_and_seek_to_first(part);
        proof {
            assert(upper.sources() =~= upper_runs);
            assert forall|i: int| 0 <= i < upper_runs.len() implies is_run(
                #[trigger] upper_runs[i],
            ) by {
                assert(uppers@[i].wf());
                uppers@[i].lemma_entries();
            }
            lemma_merge_all(upper_runs);
            lower.lemma_remaining();
            lemma_merge2(merge_all(upper_runs), lower_run);
            lemma_live(merge2(merge_all(upper_runs), lower_run));
            assert forall|k: Seq<u8>|
                lookup(merge2(merge_all(upper_runs), lower_run), k) == first_some(
                    before.plan_layers(plan),
                    k,
                ) by {
                before.lemma_plan_layers(plan, k);
                assert(lookup(merge_all(upper_runs), k) == first_some(upper_runs, k));
            }
        }
        let iter = TwoMergeIterator::create(upper, lower);
        proof {
            assert(part@ == before.plan_lowers(plan).subrange(plan.from as int, plan.to as int));
            assert(iter.remaining() == before.plan_entries(plan));
            assert(lo < before.levels.len() <= usize::MAX);
            assert(drop_tombstones == (bottom && before.empty_from(plan.lower + 1)));
            assert(kept(iter.remaining(), drop_tombstones) == old(self).plan_output(plan, bottom));
        }
        build_tables(
            iter,
            self.options.block_size,
            self.options.target_sst_size,
            drop_tombstones,
            &mut self.next_sst_id,
        )
    }

    /// Carries out the plan of a task of leveled compaction: the tables of
    /// the plan are merged into new tables, the controller gives the new
    /// lists of ids, in which the new tables stand in the place of the
    /// lower tables, and the tables of the task are closed. A reader gets
    /// what it got before. Where the ids run out or a table would exceed
    /// the file format, it is `TooLarge`, and the state has not changed.
    pub(crate) fn descend(&mut self, plan: Plan, task: &CompactionTask) -> (r: Result<(), Error>)
        requires
            old(self).wf(),
            old(self).compaction_controller is Leveled,
            task matches CompactionTask::Leveled(t) && old(self).state.plan_spec(t@) == Some(plan),
            old(self).state.plan_fits(plan),
        ensures
            final(self).wf(),
            final(self).options == old(self).options,
            final(self).compaction_controller == old(self).compaction_controller,
            final(self).state.memtable == old(self).state.memtable,
            final(self).state.imm_memtables == old(self).state.imm_memtables,
            forall|k: Seq<u8>| #[trigger] final(self).state.get_spec(k) == old(self).state.get_spec(k),
            task matches CompactionTask::Leveled(t) && (r is Ok <==> old(self).can_write(
                old(self).plan_output(plan, t.is_lower_level_bottom_level),
            )),
            r matches Err(e) ==> e == Error::TooLarge && final(self).state == old(self).state,
            r is Ok ==> exists|outputs: Seq<Arc<SsTable>>, removed: Seq<usize>|
                #[trigger] old(self).landed(*final(self), task, plan, outputs, removed),
    {
        let ghost first = self.next_sst_id as int;
        let bottom = task.compact_to_bottom_level();
        let outputs = match self.merge_plan(plan, bottom) {
            Ok(tables) => tables,
            Err(e) => {
                return Err(e);
            },
        };
        let removed = self.land(plan, task, &outputs, Ghost(first));
        proof {
            assert(old(self).landed(*self, task, plan, outputs@, removed@));
        }
        Ok(())
    }

    /// Puts the new tables `outputs`, which hold what the plan of a task of
    /// leveled compaction writes, in the place of the tables of the plan:
    /// the controller gives the new lists of ids, and the tables of the
    /// task are closed. The result holds the ids of the tables that left, as
    /// the controller gives them. A reader gets what it got before.
    #[verifier::rlimit(40)]
    pub(crate) fn land(
        &mut self,
        plan: Plan,
        task: &CompactionTask,
        outputs: &Vec<Arc<SsTable>>,
        Ghost(first): Ghost<int>,
    ) -> (removed: Vec<usize>)
        requires
            old(self).wf(),
            old(self).compaction_controller is Leveled,
            task matches CompactionTask::Leveled(t) && old(self).state.plan_spec(t@) == Some(plan),
            old(self).state.plan_fits(plan),
            tables_ordered(outputs@),
            ids_from(outputs@, first),
            forall|id: usize| old(self).state.sstables@.contains_key(id) ==> id < first,
            first + outputs@.len() <= old(self).next_sst_id,
            forall|k: Seq<u8>|
                #[trigger] lookup(concat_runs(table_runs(outputs@)), k) == merged(
                    old(self).state.plan_layers(plan),
                    task.bottom() && old(self).state.empty_from(plan.lower + 1),
                    k,
                ),
        ensures
            final(self).wf(),
            final(self).options == old(self).options,
            final(self).compaction_controller == old(self).compaction_controller,
            final(self).next_sst_id == old(self).next_sst_id,
            final(self).state.memtable == old(self).state.memtable,
            final(self).state.imm_memtables == old(self).state.imm_memtables,
            forall|k: Seq<u8>| #[trigger] final(self).state.get_spec(k) == old(self).state.get_spec(k),
            final(self).state.tables_of(ids_of(outputs@)) == outputs@,
            old(self).state.descended(
                plan,
                final(self).state.l0_sstables@,
                final(self).state.levels@,
                outputs@,
            ),
            task matches CompactionTask::Leveled(t) && crate::compact::leveled::applied(
                old(self).state.l0_sstables@,
                levels_view(old(self).state.levels@),
                add_tables(old(self).state.sstables@, outputs@),
                t@,
                ids_of(outputs@),
                false,
                final(self).state.l0_sstables@,
                levels_view(final(self).state.levels@),
                removed@,
            ),
    {
        let ghost before = self.state;
        let ghost drop_tombstones = task.bottom() && before.empty_from(plan.lower + 1);
        let out_ids = table_ids_of(outputs);
        let mut snapshot = self.state.duplicate();
        let mut i: usize = 0;
        assert(outputs@.take(0) =~= Seq::<Arc<SsTable>>::empty());
        while i < outputs.len()
            invariant
                i <= outputs@.len(),
                snapshot.l0_sstables@ == before.l0_sstables@,
                levels_view(snapshot.levels@) == levels_view(before.levels@),
                snapshot.sstables@ == add_tables(before.sstables@, outputs@.take(i as int)),
            decreases outputs@.len() - i,
        {
            assert(outputs@.take(i + 1).drop_last() =~= outputs@.take(i as int));
            snapshot.sstables.insert(outputs[i].sst_id(), share(&outputs[i]));
            i += 1;
        }
        assert(outputs@.take(outputs@.len() as int) =~= outputs@);
        proof {
            let t = task->Leveled_0;
            let lo = plan.lower as int;
            let lower = before.levels@[lo].1@;
            before.lemma_level(lo);
            before.lemma_wf();
            lemma_add_tables(before.sstables@, outputs@, first);
            assert(levels_view(before.levels@)[lo] == (before.levels@[lo].0, lower));
            assert(levels_view(snapshot.levels@).len() == snapshot.levels@.len());
            assert(levels_view(before.levels@).len() == before.levels@.len());
            assert forall|x: int|
                0 <= x < (without(lower, t.lower_level_sst_ids@) + out_ids@).len() implies snapshot.sstables@.contains_key(
                #[trigger] (without(lower, t.lower_level_sst_ids@) + out_ids@)[x],
            ) by {
                let kept = without(lower, t.lower_level_sst_ids@);
                before.lemma_plan_without(plan, t@);
                if x < plan.from {
                    assert(kept[x] == lower[x]);
                    assert(before.sstables@.contains_key(lower[x]));
                } else if x < kept.len() {
                    assert(kept[x] == lower[x - plan.from + plan.to]);
                    assert(before.sstables@.contains_key(lower[x - plan.from + plan.to]));
                } else {
                    assert(out_ids@[x - kept.len()] == outputs@[x - kept.len()].id_spec());
                }
            }
        }
        let (next, removed) = self.compaction_controller.apply_compaction_result(
            &snapshot,
            task,
            out_ids.as_slice(),
            false,
        );
        let mut candidates: Vec<usize> = Vec::new();
        if plan.from_l0 {
            append_ids(&mut candidates, self.state.l0_sstables.as_slice());
        } else {
            candidates.push(self.state.levels[plan.upper].1[plan.at]);
        }
        let ghost head = candidates@;
        let lo = plan.lower;
        let mut x: usize = plan.from;
        while x < plan.to
            invariant
                lo < self.state.levels@.len(),
                plan.from <= x <= plan.to <= self.state.levels@[lo as int].1@.len(),
                candidates@ == head + self.state.levels@[lo as int].1@.subrange(
                    plan.from as int,
                    x as int,
                ),
            decreases plan.to - x,
        {
            candidates.push(self.state.levels[lo].1[x]);
            assert(candidates@ =~= head + self.state.levels@[lo as int].1@.subrange(
                plan.from as int,
                x + 1,
            ));
            x += 1;
        }
        let l0 = next.l0_sstables;
        let levels = next.levels;
        proof {
            let t = task->Leveled_0;
            assert(candidates@ =~= before.plan_ids(plan));
            assert forall|k: Seq<u8>|
                #[trigger] lookup(concat_runs(table_runs(outputs@)), k) is Some implies first_some(
                before.plan_layers(plan),
                k,
            ) is Some by {}
            before.lemma_descended_lower(plan, outputs@);
            before.lemma_applied_descends(plan, t@, outputs@, first, l0@, levels@, removed@);
            before.lemma_descended_lists(plan, l0@, levels@, outputs@, first);
        }
        self.install(l0, levels, outputs, &candidates, Ghost(first));
        proof {
            assert(before.descent(self.state, plan, outputs@, first, drop_tombstones)) by {
                reveal(LsmStorageState::descent);
            }
            before.lemma_descended_content(self.state, plan, outputs@, first, drop_tombstones);
            lemma_installed(before.sstables@, self.state, outputs@, first);
            assert(old(self).state.descended(
                plan,
                self.state.l0_sstables@,
                self.state.levels@,
                outputs@,
            ));
        }
        removed
    }

    /// Whether this store has become `after` by carrying out the plan of
    /// a task of leveled compaction with the new tables `outputs`: the
    /// lists of ids are those that the controller gives for the result,
    /// with `removed` for the ids that left, which are those of the plan
    /// carried out, and the new tables hold what the plan writes.
    pub open(crate) spec fn landed(
        &self,
        after: Self,
        task: &CompactionTask,
        plan: Plan,
        outputs: Seq<Arc<SsTable>>,
        removed: Seq<usize>,
    ) -> bool {
        &&& task matches CompactionTask::Leveled(t) && crate::compact::leveled::applied(
            self.state.l0_sstables@,
            levels_view(self.state.levels@),
            add_tables(self.state.sstables@, outputs),
            t@,
            ids_of(outputs),
            false,
            after.state.l0_sstables@,
            levels_view(after.state.levels@),
            removed,
        ) && self.wrote(after, self.plan_output(plan, t.is_lower_level_bottom_level), outputs)
        &&& self.state.descended(plan, after.state.l0_sstables@, after.state.levels@, outputs)
    }
}

} // verus!
