//! The tasks of leveled compaction have a plan: the tables of the lower
//! level that overlap the upper tables stand together, between the tables
//! that end before the upper tables begin and the tables that begin after
//! they end.

use std::sync::Arc;
use vstd::prelude::*;
use crate::compact::descend::{begins_after, ends_before};
use crate::compact::leveled::{
    largest_last_key, least_first_key, lemma_most_outgrown, lemma_oldest_member, level_bytes,
    level_sizes, leveled_task, most_outgrown, first_used, oldest, overlapped_by, overlapping,
    overlaps, LeveledCompactionOptions, LeveledCompactionTaskView, Tables,
};
use crate::compact::place::lemma_first_at;
use crate::compact::plan::{all_after, all_before, first_at, lead, lemma_search_bounds, reach};
use crate::iterators::concat_iterator::{table_runs, tables_ordered};
use crate::key::{key_le, key_lt, lemma_key_le_lt, lemma_key_lt_transitive};
use crate::lsm_storage::{levels_view, LsmStorageState};
use crate::run::lemma_runs_apart;
use crate::table::SsTable;

verus! {

/// Where exactly the tables from position `from` up to position `to`
/// overlap a key range, they are the tables that overlap it.
pub proof fn lemma_overlapping_range(
    ids: Seq<usize>,
    tables: Tables,
    begin: Seq<u8>,
    end: Seq<u8>,
    from: int,
    to: int,
)
    requires
        0 <= from <= to <= ids.len(),
        forall|j: int|
            0 <= j < ids.len() ==> (overlaps(tables[#[trigger] ids[j]], begin, end) <==> from <= j
                < to),
    ensures
        overlapping(ids, tables, begin, end) == ids.subrange(from, to),
    decreases ids.len(),
{
    let n = ids.len() as int;
    if n == 0 {
        assert(overlapping(ids, tables, begin, end) =~= ids.subrange(from, to));
    } else {
        let front = ids.drop_last();
        let f1 = if from < n { from } else { n - 1 };
        let t1 = if to < n { to } else { n - 1 };
        assert forall|j: int| 0 <= j < front.len() implies (overlaps(
            tables[#[trigger] front[j]],
            begin,
            end,
        ) <==> f1 <= j < t1) by {
            assert(front[j] == ids[j]);
        }
        lemma_overlapping_range(front, tables, begin, end, f1, t1);
        assert(overlaps(tables[ids[n - 1]], begin, end) <==> from <= n - 1 < to);
        assert(overlapping(ids, tables, begin, end) =~= ids.subrange(from, to));
    }
}

/// Every upper table begins after each lower table before `lead`, and
/// not after the one at `lead`.
pub proof fn lemma_lead(lowers: Seq<Arc<SsTable>>, uppers: Seq<Arc<SsTable>>, j: int)
    requires
        0 <= j <= lowers.len(),
    ensures
        j <= lead(lowers, uppers, j) <= lowers.len(),
        forall|x: int| j <= x < lead(lowers, uppers, j) ==> all_after(uppers, #[trigger] lowers[x]),
        lead(lowers, uppers, j) < lowers.len() ==> !all_after(
            uppers,
            lowers[lead(lowers, uppers, j)],
        ),
    decreases lowers.len() - j,
{
    if j < lowers.len() && all_after(uppers, lowers[j]) {
        lemma_lead(lowers, uppers, j + 1);
    }
}

/// No lower table from `j` up to `reach` begins after every upper table
/// ends, and the one at `reach` does.
pub proof fn lemma_reach(lowers: Seq<Arc<SsTable>>, uppers: Seq<Arc<SsTable>>, j: int)
    requires
        0 <= j <= lowers.len(),
    ensures
        j <= reach(lowers, uppers, j) <= lowers.len(),
        forall|x: int|
            j <= x < reach(lowers, uppers, j) ==> !all_before(uppers, #[trigger] lowers[x]),
        reach(lowers, uppers, j) < lowers.len() ==> all_before(
            uppers,
            lowers[reach(lowers, uppers, j)],
        ),
    decreases lowers.len() - j,
{
    if j < lowers.len() && !all_before(uppers, lowers[j]) {
        lemma_reach(lowers, uppers, j + 1);
    }
}

/// Of two ordered tables the first ends before the second begins, and
/// each begins no later than it ends.
pub proof fn lemma_tables_apart(tables: Seq<Arc<SsTable>>, x: int, y: int)
    requires
        tables_ordered(tables),
        0 <= x < y < tables.len(),
    ensures
        key_lt(tables[x].last_key_spec(), tables[y].first_key_spec()),
        key_le(tables[x].first_key_spec(), tables[x].last_key_spec()),
        key_le(tables[y].first_key_spec(), tables[y].last_key_spec()),
{
    lemma_runs_apart(table_runs(tables), x, y);
    assert(tables[x].wf() && tables[y].wf());
    tables[x].lemma_entries();
    tables[y].lemma_entries();
    let a = tables[x].entries();
    let b = tables[y].entries();
    assert(table_runs(tables)[x] == a && table_runs(tables)[y] == b);
    if a.len() > 1 {
        assert(key_lt(a[0].0, a[a.len() - 1].0));
    }
    if b.len() > 1 {
        assert(key_lt(b[0].0, b[b.len() - 1].0));
    }
}

/// Upper tables that begin after a lower table begin after the lower
/// tables before it, and upper tables that end before a lower table end
/// before the lower tables behind it.
pub proof fn lemma_sides(lowers: Seq<Arc<SsTable>>, uppers: Seq<Arc<SsTable>>, x: int, y: int)
    requires
        tables_ordered(lowers),
        0 <= x < y < lowers.len(),
    ensures
        all_after(uppers, lowers[y]) ==> all_after(uppers, lowers[x]),
        all_before(uppers, lowers[x]) ==> all_before(uppers, lowers[y]),
{
    lemma_tables_apart(lowers, x, y);
    if all_after(uppers, lowers[y]) {
        assert forall|i: int| 0 <= i < uppers.len() implies begins_after(
            #[trigger] uppers[i],
            lowers[x],
        ) by {
            assert(begins_after(uppers[i], lowers[y]));
            if uppers[i].entries().len() > 0 {
                lemma_key_le_lt(
                    lowers[x].last_key_spec(),
                    lowers[y].first_key_spec(),
                    lowers[y].last_key_spec(),
                );
                lemma_key_lt_transitive(
                    lowers[x].last_key_spec(),
                    lowers[y].last_key_spec(),
                    uppers[i].first_key_spec(),
                );
            }
        }
    }
    if all_before(uppers, lowers[x]) {
        assert forall|i: int| 0 <= i < uppers.len() implies ends_before(
            #[trigger] uppers[i],
            lowers[y],
        ) by {
            assert(ends_before(uppers[i], lowers[x]));
            if uppers[i].entries().len() > 0 {
                lemma_key_le_lt(
                    lowers[x].first_key_spec(),
                    lowers[x].last_key_spec(),
                    lowers[y].first_key_spec(),
                );
                lemma_key_lt_transitive(
                    uppers[i].last_key_spec(),
                    lowers[x].first_key_spec(),
                    lowers[y].first_key_spec(),
                );
            }
        }
    }
}

/// The lower tables that neither end before the upper tables begin nor
/// begin after they end are those from `lead` up to `reach`.
pub proof fn lemma_between(lowers: Seq<Arc<SsTable>>, uppers: Seq<Arc<SsTable>>, j: int)
    requires
        tables_ordered(lowers),
        0 <= j < lowers.len(),
    ensures
        (!all_after(uppers, lowers[j]) && !all_before(uppers, lowers[j])) <==> lead(
            lowers,
            uppers,
            0,
        ) <= j < reach(lowers, uppers, lead(lowers, uppers, 0)),
{
    lemma_lead(lowers, uppers, 0);
    let from = lead(lowers, uppers, 0);
    lemma_reach(lowers, uppers, from);
    let to = reach(lowers, uppers, from);
    if j < from {
        assert(all_after(uppers, lowers[j]));
    } else if j < to {
        assert(!all_before(uppers, lowers[j]));
        if from < j {
            lemma_sides(lowers, uppers, from, j);
        }
    } else {
        if to < j {
            lemma_sides(lowers, uppers, to, j);
        }
    }
}

/// A key comes before the least first key of tables where it comes
/// before the first key of each, and behind their largest last key where
/// it comes behind the last key of each.
pub proof fn lemma_bounds(ids: Seq<usize>, tables: Tables, k: Seq<u8>)
    requires
        ids.len() > 0,
    ensures
        key_lt(k, least_first_key(ids, tables)) <==> forall|i: int|
            0 <= i < ids.len() ==> key_lt(k, tables[#[trigger] ids[i]].first_key_spec()),
        key_lt(largest_last_key(ids, tables), k) <==> forall|i: int|
            0 <= i < ids.len() ==> key_lt(tables[#[trigger] ids[i]].last_key_spec(), k),
    decreases ids.len(),
{
    if ids.len() > 1 {
        let front = ids.drop_last();
        let n = ids.len() as int;
        let first = tables[ids[n - 1]].first_key_spec();
        let last = tables[ids[n - 1]].last_key_spec();
        let least = least_first_key(front, tables);
        let largest = largest_last_key(front, tables);
        lemma_bounds(front, tables, k);
        assert(ids.last() == ids[n - 1]);
        assert forall|i: int| 0 <= i < front.len() implies front[i] == ids[i] by {}
        lemma_key_le_lt(least, first, k);
        lemma_key_le_lt(k, least, first);
        lemma_key_le_lt(last, largest, k);
        lemma_key_le_lt(k, last, largest);
        if key_lt(k, least_first_key(ids, tables)) {
            if key_lt(first, least) {
                lemma_key_lt_transitive(k, first, least);
            }
            assert forall|i: int| 0 <= i < ids.len() implies key_lt(
                k,
                tables[#[trigger] ids[i]].first_key_spec(),
            ) by {
                if i < n - 1 {
                    assert(front[i] == ids[i]);
                }
            }
        }
        if forall|i: int| 0 <= i < ids.len() ==> key_lt(k, tables[#[trigger] ids[i]].first_key_spec()) {
            assert forall|i: int| 0 <= i < front.len() implies key_lt(
                k,
                tables[#[trigger] front[i]].first_key_spec(),
            ) by {
                assert(front[i] == ids[i]);
            }
            assert(key_lt(k, tables[ids[n - 1]].first_key_spec()));
        }
        if key_lt(largest_last_key(ids, tables), k) {
            if key_lt(largest, last) {
                lemma_key_lt_transitive(largest, last, k);
            }
            assert forall|i: int| 0 <= i < ids.len() implies key_lt(
                tables[#[trigger] ids[i]].last_key_spec(),
                k,
            ) by {
                if i < n - 1 {
                    assert(front[i] == ids[i]);
                }
            }
        }
        if forall|i: int| 0 <= i < ids.len() ==> key_lt(tables[#[trigger] ids[i]].last_key_spec(), k) {
            assert forall|i: int| 0 <= i < front.len() implies key_lt(
                tables[#[trigger] front[i]].last_key_spec(),
                k,
            ) by {
                assert(front[i] == ids[i]);
            }
            assert(key_lt(tables[ids[n - 1]].last_key_spec(), k));
        }
    }
}

/// The first level in use is a level.
pub proof fn lemma_first_used(sizes: Seq<u64>, options: LeveledCompactionOptions, from: int)
    requires
        0 <= from < sizes.len(),
    ensures
        from <= first_used(sizes, options, from) < sizes.len(),
    decreases sizes.len() - from,
{
    if !(from >= sizes.len() - 1 || crate::compact::leveled::target_size(sizes, options, from) > 0) {
        lemma_first_used(sizes, options, from + 1);
    }
}

/// An id that stands among `ids` from `j` on is found at or before its
/// place.
pub proof fn lemma_first_at_found(ids: Seq<usize>, id: usize, j: int, p: int)
    requires
        0 <= j <= p < ids.len(),
        ids[p] == id,
    ensures
        first_at(ids, id, j) <= p,
    decreases p - j,
{
    if ids[j] != id {
        lemma_first_at_found(ids, id, j + 1, p);
    }
}

impl LsmStorageState {
    /// The tables of an ordered level that overlap the key range of upper
    /// tables, which hold entries, are those from `lead` up to `reach`.
    pub proof fn lemma_overlapped(&self, lower: Seq<usize>, upper: Seq<usize>)
        requires
            tables_ordered(self.tables_of(lower)),
            forall|i: int|
                0 <= i < upper.len() ==> (#[trigger] self.tables_of(upper)[i]).entries().len() > 0,
        ensures
            overlapped_by(lower, upper, self.sstables@) == lower.subrange(
                lead(self.tables_of(lower), self.tables_of(upper), 0),
                reach(
                    self.tables_of(lower),
                    self.tables_of(upper),
                    lead(self.tables_of(lower), self.tables_of(upper), 0),
                ),
            ),
    {
        let lowers = self.tables_of(lower);
        let uppers = self.tables_of(upper);
        let tables = self.sstables@;
        lemma_lead(lowers, uppers, 0);
        let from = lead(lowers, uppers, 0);
        lemma_reach(lowers, uppers, from);
        let to = reach(lowers, uppers, from);
        if upper.len() == 0 {
            if from < lowers.len() {
                assert(all_after(uppers, lowers[from]));
            }
            assert(overlapped_by(lower, upper, tables) =~= lower.subrange(from, to));
        } else {
            let begin = least_first_key(upper, tables);
            let end = largest_last_key(upper, tables);
            assert forall|j: int| 0 <= j < lower.len() implies (overlaps(
                tables[#[trigger] lower[j]],
                begin,
                end,
            ) <==> from <= j < to) by {
                let t = lowers[j];
                assert(t == tables[lower[j]]);
                lemma_between(lowers, uppers, j);
                lemma_bounds(upper, tables, t.last_key_spec());
                lemma_bounds(upper, tables, t.first_key_spec());
                if all_after(uppers, t) {
                    assert forall|i: int| 0 <= i < upper.len() implies key_lt(
                        t.last_key_spec(),
                        tables[#[trigger] upper[i]].first_key_spec(),
                    ) by {
                        assert(begins_after(uppers[i], t));
                        assert(uppers[i].entries().len() > 0);
                    }
                }
                if key_lt(t.last_key_spec(), begin) {
                    assert forall|i: int| 0 <= i < uppers.len() implies begins_after(
                        #[trigger] uppers[i],
                        t,
                    ) by {
                        assert(key_lt(t.last_key_spec(), tables[upper[i]].first_key_spec()));
                    }
                }
                if all_before(uppers, t) {
                    assert forall|i: int| 0 <= i < upper.len() implies key_lt(
                        tables[#[trigger] upper[i]].last_key_spec(),
                        t.first_key_spec(),
                    ) by {
                        assert(ends_before(uppers[i], t));
                        assert(uppers[i].entries().len() > 0);
                    }
                }
                if key_lt(end, t.first_key_spec()) {
                    assert forall|i: int| 0 <= i < uppers.len() implies ends_before(
                        #[trigger] uppers[i],
                        t,
                    ) by {
                        assert(key_lt(tables[upper[i]].last_key_spec(), t.first_key_spec()));
                    }
                }
            }
            lemma_overlapping_range(lower, tables, begin, end, from, to);
        }
    }

    /// The task that the options of leveled compaction call for in a
    /// store has a plan: always where it moves a table of a level down,
    /// and for the tables of level 0 where no level above the level that
    /// takes them holds a table.
    pub proof fn lemma_task_has_plan(
        &self,
        options: LeveledCompactionOptions,
        task: LeveledCompactionTaskView,
    )
        requires
            self.wf(),
            leveled_task(options, self.l0_sstables@, levels_view(self.levels@), self.sstables@)
                == Some(task),
            task.upper_level is None ==> forall|j: int|
                0 <= j < task.lower_level - 1 ==> (#[trigger] self.levels@[j]).1@.len() == 0,
        ensures
            self.plan_spec(task) is Some,
    {
        let tiers = levels_view(self.levels@);
        let tables = self.sstables@;
        let sizes = level_sizes(tiers, tables);
        let l0 = self.l0_sstables@;
        assert(tiers.len() == self.levels@.len());
        assert(self.levels@.len() == self.levels.len() <= usize::MAX);
        if l0.len() >= options.level0_file_num_compaction_trigger {
            let base = first_used(sizes, options, 0);
            lemma_first_used(sizes, options, 0);
            let lower = self.levels@[base].1@;
            assert(tiers[base] == (self.levels@[base].0, lower));
            self.lemma_level(base);
            self.lemma_overlapped(lower, l0);
            let lowers = self.tables_of(lower);
            let uppers = self.tables_of(l0);
            assert(lowers.len() == self.levels@[base].1.len() <= usize::MAX);
            lemma_search_bounds(lowers, uppers, lower, 0, 0);
            lemma_search_bounds(lowers, uppers, lower, 0, lead(lowers, uppers, 0));
            assert(self.plan_with(task, true, 0, 0) is Some);
        } else {
            lemma_most_outgrown(sizes, options, tiers.len() as int);
            let i = most_outgrown(sizes, options, tiers.len() as int).unwrap();
            let upper = self.levels@[i].1@;
            let lower = self.levels@[i + 1].1@;
            assert(tiers[i] == (self.levels@[i].0, upper));
            assert(tiers[i + 1] == (self.levels@[i + 1].0, lower));
            assert(sizes[i] == crate::compact::leveled::clip64(level_bytes(upper, tables)));
            assert(upper.len() > 0);
            let id = oldest(upper);
            lemma_oldest_member(upper);
            let p = choose|p: int| 0 <= p < upper.len() && upper[p] == id;
            lemma_first_at_found(upper, id, 0, p);
            lemma_first_at(upper, id, 0);
            let at = first_at(upper, id, 0);
            assert(upper.len() == self.levels@[i].1.len() <= usize::MAX);
            self.lemma_level(i);
            self.lemma_level(i + 1);
            let one = seq![id];
            assert(self.tables_of(one) =~= seq![self.tables_of(upper)[at]]);
            assert(table_runs(self.tables_of(upper))[at] == self.tables_of(upper)[at].entries());
            self.lemma_overlapped(lower, one);
            let lowers = self.tables_of(lower);
            let uppers = self.tables_of(one);
            assert(lowers.len() == self.levels@[i + 1].1.len() <= usize::MAX);
            lemma_search_bounds(lowers, uppers, lower, 0, 0);
            lemma_search_bounds(lowers, uppers, lower, 0, lead(lowers, uppers, 0));
            assert(task.upper_level == Some((i + 1) as usize));
            assert(task.upper_level_sst_ids[0] == id);
            assert(self.plan_with(task, false, i as usize, at as usize) is Some);
        }
    }
}

} // verus!
