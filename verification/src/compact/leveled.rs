//! Leveled compaction with dynamic level sizes: each level has a target
//! size, a tenth (or another part) of that of the level below it, and a
//! level that has outgrown its target gives its oldest table to the next.

use std::sync::Arc;
use vstd::prelude::*;
use crate::compact::{append_ids, only, split_ids, without};
use crate::handle::share;
use crate::key::{key_less, key_lt};
use crate::lsm_storage::{copy_ids, levels_view, present, LsmStorageState};
use crate::table::SsTable;

verus! {

/// The options of leveled compaction.
#[derive(Debug, Clone, Copy, PartialEq, Eq, Structural)]
pub struct LeveledCompactionOptions {
    /// The target size of a level is that of the level below it, divided
    /// by this.
    pub level_size_multiplier: usize,
    /// Level 0 is compacted when it holds this many tables.
    pub level0_file_num_compaction_trigger: usize,
    /// The number of levels below level 0.
    pub max_levels: usize,
    /// The least target size of the last level, in MiB.
    pub base_level_size_mb: usize,
}

/// A task of leveled compaction: merge the upper tables into the tables of
/// the lower level that overlap them.
#[derive(Debug)]
pub struct LeveledCompactionTask {
    /// The upper level; `None` for level 0.
    pub upper_level: Option<usize>,
    /// The ids of the upper tables.
    pub upper_level_sst_ids: Vec<usize>,
    /// The lower level.
    pub lower_level: usize,
    /// The ids of the tables of the lower level that overlap the upper
    /// tables.
    pub lower_level_sst_ids: Vec<usize>,
    /// Whether the lower level is the last.
    pub is_lower_level_bottom_level: bool,
}

/// A task as plain values.
pub struct LeveledCompactionTaskView {
    /// The upper level; `None` for level 0.
    pub upper_level: Option<usize>,
    /// The ids of the upper tables.
    pub upper_level_sst_ids: Seq<usize>,
    /// The lower level.
    pub lower_level: usize,
    /// The ids of the tables of the lower level that overlap the upper
    /// tables.
    pub lower_level_sst_ids: Seq<usize>,
    /// Whether the lower level is the last.
    pub is_lower_level_bottom_level: bool,
}

impl View for LeveledCompactionTask {
    type V = LeveledCompactionTaskView;

    open spec fn view(&self) -> LeveledCompactionTaskView {
        LeveledCompactionTaskView {
            upper_level: self.upper_level,
            upper_level_sst_ids: self.upper_level_sst_ids@,
            lower_level: self.lower_level,
            lower_level_sst_ids: self.lower_level_sst_ids@,
            is_lower_level_bottom_level: self.is_lower_level_bottom_level,
        }
    }
}

/// The open tables, by id.
pub type Tables = Map<usize, Arc<SsTable>>;

/// `n` as a `u64`, or the largest `u64` where `n` is larger.
pub open spec fn clip64(n: nat) -> u64 {
    if n <= u64::MAX {
        n as u64
    } else {
        u64::MAX
    }
}

/// The size of the tables `ids`, in bytes.
pub open spec fn level_bytes(ids: Seq<usize>, tables: Tables) -> nat
    decreases ids.len(),
{
    if ids.len() == 0 {
        0
    } else {
        level_bytes(ids.drop_last(), tables) + tables[ids.last()].size_spec() as nat
    }
}

/// The size of each level, in bytes, as far as a `u64` counts.
pub open spec fn level_sizes(levels: Seq<(usize, Seq<usize>)>, tables: Tables) -> Seq<u64> {
    Seq::new(levels.len(), |i: int| clip64(level_bytes(levels[i].1, tables)))
}

/// The least target size of the last level, in bytes.
pub open spec fn base_bytes(options: LeveledCompactionOptions) -> u64 {
    clip64((options.base_level_size_mb * 1024 * 1024) as nat)
}

/// The target size of the level at index `i`: for the last level its size
/// or the least target size, whichever is larger; for every other level
/// the target size of the level below, divided by the multiplier.
pub open spec fn target_size(sizes: Seq<u64>, options: LeveledCompactionOptions, i: int) -> u64
    decreases sizes.len() - i,
{
    if i < 0 || i >= sizes.len() {
        0
    } else if i == sizes.len() - 1 {
        if sizes[i] >= base_bytes(options) {
            sizes[i]
        } else {
            base_bytes(options)
        }
    } else if options.level_size_multiplier == 0 {
        0
    } else {
        target_size(sizes, options, i + 1) / (options.level_size_multiplier as u64)
    }
}

/// The index of the first level in use from `from` on: the first whose
/// target size is not 0, or the last level where there is none.
pub open spec fn first_used(sizes: Seq<u64>, options: LeveledCompactionOptions, from: int) -> int
    decreases sizes.len() - from,
{
    if from >= sizes.len() - 1 || target_size(sizes, options, from) > 0 {
        from
    } else {
        first_used(sizes, options, from + 1)
    }
}

/// Whether the level at index `i` has a higher priority than that at `j`:
/// a larger size for its target size.
pub open spec fn higher(sizes: Seq<u64>, options: LeveledCompactionOptions, i: int, j: int) -> bool {
    sizes[i] * target_size(sizes, options, j) > sizes[j] * target_size(sizes, options, i)
}

/// Whether the level at index `i` has outgrown its target size and has a
/// level below it.
pub open spec fn outgrown(sizes: Seq<u64>, options: LeveledCompactionOptions, i: int) -> bool {
    &&& i + 1 < sizes.len()
    &&& target_size(sizes, options, i) > 0
    &&& sizes[i] > target_size(sizes, options, i)
}

/// The index of the level of the highest priority among the first `upto`
/// levels that have outgrown their target size, the first of them where
/// several have the same.
pub open spec fn most_outgrown(sizes: Seq<u64>, options: LeveledCompactionOptions, upto: int) -> Option<
    int,
>
    decreases upto,
{
    if upto <= 0 {
        None
    } else {
        let before = most_outgrown(sizes, options, upto - 1);
        if outgrown(sizes, options, upto - 1) && (before is None || higher(
            sizes,
            options,
            upto - 1,
            before.unwrap(),
        )) {
            Some(upto - 1)
        } else {
            before
        }
    }
}

/// The least of `ids`: the id of the oldest table.
pub open spec fn oldest(ids: Seq<usize>) -> usize
    decreases ids.len(),
{
    if ids.len() <= 1 {
        ids[0]
    } else if ids.last() < oldest(ids.drop_last()) {
        ids.last()
    } else {
        oldest(ids.drop_last())
    }
}

/// The least first key of the tables `ids`.
pub open spec fn least_first_key(ids: Seq<usize>, tables: Tables) -> Seq<u8>
    decreases ids.len(),
{
    if ids.len() <= 1 {
        tables[ids[0]].first_key_spec()
    } else if key_lt(
        tables[ids.last()].first_key_spec(),
        least_first_key(ids.drop_last(), tables),
    ) {
        tables[ids.last()].first_key_spec()
    } else {
        least_first_key(ids.drop_last(), tables)
    }
}

/// The largest last key of the tables `ids`.
pub open spec fn largest_last_key(ids: Seq<usize>, tables: Tables) -> Seq<u8>
    decreases ids.len(),
{
    if ids.len() <= 1 {
        tables[ids[0]].last_key_spec()
    } else if key_lt(
        largest_last_key(ids.drop_last(), tables),
        tables[ids.last()].last_key_spec(),
    ) {
        tables[ids.last()].last_key_spec()
    } else {
        largest_last_key(ids.drop_last(), tables)
    }
}

/// Whether the key range of `table` overlaps the range from `begin` to
/// `end`.
pub open spec fn overlaps(table: Arc<SsTable>, begin: Seq<u8>, end: Seq<u8>) -> bool {
    !(key_lt(table.last_key_spec(), begin) || key_lt(end, table.first_key_spec()))
}

/// The tables among `ids` whose key range overlaps the range from `begin`
/// to `end`.
pub open spec fn overlapping(ids: Seq<usize>, tables: Tables, begin: Seq<u8>, end: Seq<u8>) -> Seq<
    usize,
>
    decreases ids.len(),
{
    if ids.len() == 0 {
        Seq::empty()
    } else {
        overlapping(ids.drop_last(), tables, begin, end) + if overlaps(
            tables[ids.last()],
            begin,
            end,
        ) {
            seq![ids.last()]
        } else {
            Seq::<usize>::empty()
        }
    }
}

/// The tables among `ids` whose key range overlaps the key range of the
/// tables `upper`; none where there are no upper tables.
pub open spec fn overlapped_by(ids: Seq<usize>, upper: Seq<usize>, tables: Tables) -> Seq<usize> {
    if upper.len() == 0 {
        Seq::empty()
    } else {
        overlapping(ids, tables, least_first_key(upper, tables), largest_last_key(upper, tables))
    }
}

/// The task that the options call for in a store with the level-0 tables
/// `l0`, the levels `levels` and the open tables `tables`. Where level 0
/// holds enough tables, all of them go to the first level in use. Else the
/// level that has most outgrown its target size gives its oldest table to
/// the level below. In both cases the task names the tables of the lower
/// level that overlap the upper tables.
pub open spec fn leveled_task(
    options: LeveledCompactionOptions,
    l0: Seq<usize>,
    levels: Seq<(usize, Seq<usize>)>,
    tables: Tables,
) -> Option<LeveledCompactionTaskView> {
    let sizes = level_sizes(levels, tables);
    if levels.len() == 0 {
        None
    } else if l0.len() >= options.level0_file_num_compaction_trigger {
        let base = first_used(sizes, options, 0);
        Some(
            LeveledCompactionTaskView {
                upper_level: None,
                upper_level_sst_ids: l0,
                lower_level: (base + 1) as usize,
                lower_level_sst_ids: overlapped_by(levels[base].1, l0, tables),
                is_lower_level_bottom_level: base + 1 == options.max_levels,
            },
        )
    } else {
        match most_outgrown(sizes, options, levels.len() as int) {
            Some(i) => Some(
                LeveledCompactionTaskView {
                    upper_level: Some((i + 1) as usize),
                    upper_level_sst_ids: seq![oldest(levels[i].1)],
                    lower_level: (i + 2) as usize,
                    lower_level_sst_ids: overlapped_by(
                        levels[i + 1].1,
                        seq![oldest(levels[i].1)],
                        tables,
                    ),
                    is_lower_level_bottom_level: i + 2 == options.max_levels,
                },
            ),
            None => None,
        }
    }
}

/// The levels of the task are levels of the store.
pub open spec fn applicable(levels: Seq<(usize, Seq<usize>)>, task: LeveledCompactionTaskView) -> bool {
    &&& 1 <= task.lower_level <= levels.len()
    &&& task.upper_level matches Some(u) ==> 1 <= u <= levels.len() && u != task.lower_level
}

/// `ids` with `id` before the first table whose first key comes after
/// that of `id`.
pub open spec fn insert_by_key(ids: Seq<usize>, id: usize, tables: Tables) -> Seq<usize>
    decreases ids.len(),
{
    if ids.len() == 0 {
        seq![id]
    } else if key_lt(tables[id].first_key_spec(), tables[ids[0]].first_key_spec()) {
        seq![id] + ids
    } else {
        seq![ids[0]] + insert_by_key(ids.skip(1), id, tables)
    }
}

/// `ids` in the order of the first keys of their tables; tables with the
/// same first key keep their order.
pub open spec fn sorted_by_key(ids: Seq<usize>, tables: Tables) -> Seq<usize>
    decreases ids.len(),
{
    if ids.len() == 0 {
        Seq::empty()
    } else {
        insert_by_key(sorted_by_key(ids.drop_last(), tables), ids.last(), tables)
    }
}

/// What applying the result of a task does to the lists of ids: the
/// tables of the task leave the upper and the lower level, and the tables
/// `output` are added to the lower level, which is then put in the order
/// of first keys, unless the store is being recovered, when the tables are
/// not open yet; `removed` holds the ids of the tables that left, those of
/// the upper level first.
pub open spec fn applied(
    l0: Seq<usize>,
    levels: Seq<(usize, Seq<usize>)>,
    tables: Tables,
    task: LeveledCompactionTaskView,
    output: Seq<usize>,
    in_recovery: bool,
    new_l0: Seq<usize>,
    new_levels: Seq<(usize, Seq<usize>)>,
    removed: Seq<usize>,
) -> bool {
    &&& new_levels.len() == levels.len()
    &&& new_l0 == if task.upper_level is None {
        without(l0, task.upper_level_sst_ids)
    } else {
        l0
    }
    &&& forall|i: int|
        0 <= i < levels.len() ==> #[trigger] new_levels[i] == (
            levels[i].0,
            if i == task.lower_level - 1 {
                if in_recovery {
                    without(levels[i].1, task.lower_level_sst_ids) + output
                } else {
                    sorted_by_key(without(levels[i].1, task.lower_level_sst_ids) + output, tables)
                }
            } else if task.upper_level matches Some(u) && u == i + 1 {
                without(levels[i].1, task.upper_level_sst_ids)
            } else {
                levels[i].1
            },
        )
    &&& removed == match task.upper_level {
        Some(u) => only(levels[u - 1].1, task.upper_level_sst_ids),
        None => only(l0, task.upper_level_sst_ids),
    } + only(levels[task.lower_level - 1].1, task.lower_level_sst_ids)
}

/// The place of `id` among `ids` by first key is its place by
/// `insert_by_key`.
pub proof fn lemma_insert_by_key(ids: Seq<usize>, id: usize, tables: Tables, at: int)
    requires
        0 <= at <= ids.len(),
        forall|j: int|
            0 <= j < at ==> !key_lt(
                tables[id].first_key_spec(),
                tables[#[trigger] ids[j]].first_key_spec(),
            ),
        at < ids.len() ==> key_lt(tables[id].first_key_spec(), tables[ids[at]].first_key_spec()),
    ensures
        insert_by_key(ids, id, tables) == ids.insert(at, id),
    decreases ids.len(),
{
    if ids.len() == 0 {
        assert(ids.insert(at, id) =~= seq![id]);
    } else if at == 0 {
        assert(ids.insert(0, id) =~= seq![id] + ids);
    } else {
        assert(!key_lt(tables[id].first_key_spec(), tables[ids[0]].first_key_spec()));
        let rest = ids.skip(1);
        assert forall|j: int| 0 <= j < at - 1 implies !key_lt(
            tables[id].first_key_spec(),
            tables[#[trigger] rest[j]].first_key_spec(),
        ) by {
            assert(rest[j] == ids[j + 1]);
        }
        lemma_insert_by_key(rest, id, tables, at - 1);
        assert(ids.insert(at, id) =~= seq![ids[0]] + rest.insert(at - 1, id));
    }
}

/// The first keys of the tables `ids` do not descend.
pub open spec fn ordered_by_key(ids: Seq<usize>, tables: Tables) -> bool {
    forall|i: int, j: int|
        0 <= i < j < ids.len() ==> !key_lt(
            tables[#[trigger] ids[j]].first_key_spec(),
            tables[#[trigger] ids[i]].first_key_spec(),
        )
}

/// The number of ids at the front of `ids` whose tables do not begin after
/// that of `id`.
pub open spec fn place_by_key(ids: Seq<usize>, id: usize, tables: Tables) -> int
    decreases ids.len(),
{
    if ids.len() == 0 || key_lt(tables[id].first_key_spec(), tables[ids[0]].first_key_spec()) {
        0
    } else {
        1 + place_by_key(ids.skip(1), id, tables)
    }
}

/// `insert_by_key` puts the id behind the ids whose tables do not begin
/// after its table.
pub proof fn lemma_place_by_key(ids: Seq<usize>, id: usize, tables: Tables)
    ensures
        0 <= place_by_key(ids, id, tables) <= ids.len(),
        insert_by_key(ids, id, tables) == ids.insert(place_by_key(ids, id, tables), id),
        forall|j: int|
            0 <= j < place_by_key(ids, id, tables) ==> !key_lt(
                tables[id].first_key_spec(),
                tables[#[trigger] ids[j]].first_key_spec(),
            ),
        place_by_key(ids, id, tables) < ids.len() ==> key_lt(
            tables[id].first_key_spec(),
            tables[ids[place_by_key(ids, id, tables)]].first_key_spec(),
        ),
    decreases ids.len(),
{
    if !(ids.len() == 0 || key_lt(tables[id].first_key_spec(), tables[ids[0]].first_key_spec())) {
        let rest = ids.skip(1);
        lemma_place_by_key(rest, id, tables);
        let at = place_by_key(ids, id, tables);
        assert forall|j: int| 0 <= j < at implies !key_lt(
            tables[id].first_key_spec(),
            tables[#[trigger] ids[j]].first_key_spec(),
        ) by {
            if j > 0 {
                assert(rest[j - 1] == ids[j]);
            }
        }
        if at < ids.len() {
            assert(rest[at - 1] == ids[at]);
        }
    }
    lemma_insert_by_key(ids, id, tables, place_by_key(ids, id, tables));
}

/// Ordering ids by the first keys of their tables gives the same ids, in
/// an order in which the first keys do not descend.
pub proof fn lemma_sorted_by_key(ids: Seq<usize>, tables: Tables)
    ensures
        ordered_by_key(sorted_by_key(ids, tables), tables),
        sorted_by_key(ids, tables).to_multiset() == ids.to_multiset(),
        sorted_by_key(ids, tables).len() == ids.len(),
    decreases ids.len(),
{
    if ids.len() > 0 {
        let front = ids.drop_last();
        let id = ids.last();
        let s = sorted_by_key(front, tables);
        lemma_sorted_by_key(front, tables);
        lemma_place_by_key(s, id, tables);
        let at = place_by_key(s, id, tables);
        let r = s.insert(at, id);
        assert(sorted_by_key(ids, tables) == r);
        vstd::seq_lib::to_multiset_insert(s, at, id);
        vstd::seq_lib::to_multiset_build(front, id);
        assert(front.push(id) =~= ids);
        assert forall|i: int, j: int| 0 <= i < j < r.len() implies !key_lt(
            tables[#[trigger] r[j]].first_key_spec(),
            tables[#[trigger] r[i]].first_key_spec(),
        ) by {
            let new_key = tables[id].first_key_spec();
            if j == at {
                assert(r[i] == s[i]);
                assert(!key_lt(new_key, tables[s[i]].first_key_spec()));
            } else if i == at {
                assert(r[j] == s[j - 1]);
                let other = tables[s[j - 1]].first_key_spec();
                let next = tables[s[at]].first_key_spec();
                assert(key_lt(new_key, next));
                if key_lt(other, new_key) {
                    crate::key::lemma_key_lt_transitive(other, new_key, next);
                    if j - 1 > at {
                        assert(!key_lt(
                            tables[s[j - 1]].first_key_spec(),
                            tables[s[at]].first_key_spec(),
                        ));
                    } else {
                        crate::key::lemma_key_lt_asymmetric(other, new_key);
                    }
                }
            } else {
                let x = if i < at {
                    i
                } else {
                    i - 1
                };
                let y = if j < at {
                    j
                } else {
                    j - 1
                };
                assert(r[i] == s[x]);
                assert(r[j] == s[y]);
                assert(!key_lt(tables[s[y]].first_key_spec(), tables[s[x]].first_key_spec()));
            }
        }
    } else {
        assert(sorted_by_key(ids, tables) =~= ids);
    }
}

/// Decides what leveled compaction does next.
pub struct LeveledCompactionController {
    options: LeveledCompactionOptions,
}

impl LeveledCompactionController {
    /// The options of the controller.
    pub closed spec fn options_spec(&self) -> LeveledCompactionOptions {
        self.options
    }

    /// Creates a controller with `options`.
    pub fn new(options: LeveledCompactionOptions) -> (r: Self)
        ensures
            r.options_spec() == options,
    {
        Self { options }
    }

    /// The size of the tables `ids`, in bytes, as far as a `u64` counts.
    fn bytes_of(snapshot: &LsmStorageState, ids: &Vec<usize>) -> (r: u64)
        requires
            present(snapshot.sstables@, ids@),
        ensures
            r == clip64(level_bytes(ids@, snapshot.sstables@)),
    {
        let mut total: u64 = 0;
        let mut i: usize = 0;
        assert(ids@.take(0) =~= Seq::<usize>::empty());
        while i < ids.len()
            invariant
                present(snapshot.sstables@, ids@),
                i <= ids@.len(),
                total == clip64(level_bytes(ids@.take(i as int), snapshot.sstables@)),
            decreases ids@.len() - i,
        {
            assert(ids@.take(i + 1).drop_last() =~= ids@.take(i as int));
            assert(snapshot.sstables@.contains_key(ids@[i as int]));
            let table = snapshot.table(ids[i]);
            total = total.saturating_add(table.table_size());
            i += 1;
        }
        assert(ids@.take(ids@.len() as int) =~= ids@);
        total
    }

    /// The size and the target size of each level.
    fn sizes_and_targets(&self, snapshot: &LsmStorageState) -> (r: (Vec<u64>, Vec<u64>))
        requires
            forall|j: int|
                0 <= j < snapshot.levels@.len() ==> present(
                    snapshot.sstables@,
                    (#[trigger] snapshot.levels@[j]).1@,
                ),
        ensures
            r.0@ == level_sizes(levels_view(snapshot.levels@), snapshot.sstables@),
            r.1@.len() == r.0@.len(),
            forall|i: int|
                0 <= i < r.1@.len() ==> #[trigger] r.1@[i] == target_size(
                    r.0@,
                    self.options_spec(),
                    i,
                ),
    {
        let ghost levels = levels_view(snapshot.levels@);
        let ghost want = level_sizes(levels, snapshot.sstables@);
        let n = snapshot.levels.len();
        let mut sizes: Vec<u64> = Vec::new();
        let mut i: usize = 0;
        while i < n
            invariant
                n == snapshot.levels@.len(),
                levels == levels_view(snapshot.levels@),
                want == level_sizes(levels, snapshot.sstables@),
                forall|j: int|
                    0 <= j < snapshot.levels@.len() ==> present(
                        snapshot.sstables@,
                        (#[trigger] snapshot.levels@[j]).1@,
                    ),
                i <= n,
                sizes@ == want.take(i as int),
            decreases n - i,
        {
            assert(present(snapshot.sstables@, snapshot.levels@[i as int].1@));
            assert(levels[i as int].1 == snapshot.levels@[i as int].1@);
            let bytes = Self::bytes_of(snapshot, &snapshot.levels[i].1);
            sizes.push(bytes);
            assert(sizes@ =~= want.take(i + 1));
            i += 1;
        }
        assert(want.take(n as int) =~= want);
        let mut targets: Vec<u64> = Vec::new();
        let mut k: usize = 0;
        while k < n
            invariant
                k <= n,
                targets@.len() == k,
            decreases n - k,
        {
            targets.push(0);
            k += 1;
        }
        if n > 0 {
            let wide: u128 = (self.options.base_level_size_mb as u128) * 1024 * 1024;
            let base: u64 = if wide > 0xFFFF_FFFF_FFFF_FFFF {
                u64::MAX
            } else {
                wide as u64
            };
            assert(base == base_bytes(self.options));
            let last = if sizes[n - 1] >= base {
                sizes[n - 1]
            } else {
                base
            };
            targets[n - 1] = last;
            let multiplier = self.options.level_size_multiplier as u64;
            let mut j: usize = n - 1;
            while j > 0
                invariant
                    j < n,
                    n == sizes@.len(),
                    targets@.len() == n,
                    multiplier == self.options.level_size_multiplier,
                    forall|x: int|
                        j <= x < n ==> #[trigger] targets@[x] == target_size(
                            sizes@,
                            self.options,
                            x,
                        ),
                decreases j,
            {
                let below = targets[j];
                let here = if multiplier == 0 {
                    0
                } else {
                    below / multiplier
                };
                let ghost before = targets@;
                targets[j - 1] = here;
                assert forall|x: int| j - 1 <= x < n implies #[trigger] targets@[x] == target_size(
                    sizes@,
                    self.options,
                    x,
                ) by {
                    if x >= j {
                        assert(targets@[x] == before[x]);
                    }
                }
                j -= 1;
            }
        }
        (sizes, targets)
    }

    /// The ids among `ids` of the tables whose key range overlaps that of
    /// the tables `upper`.
    fn overlapped(snapshot: &LsmStorageState, ids: &Vec<usize>, upper: &Vec<usize>) -> (r: Vec<
        usize,
    >)
        requires
            present(snapshot.sstables@, ids@),
            present(snapshot.sstables@, upper@),
        ensures
            r@ == overlapped_by(ids@, upper@, snapshot.sstables@),
    {
        let ghost tables = snapshot.sstables@;
        if upper.len() == 0 {
            return Vec::new();
        }
        assert(tables.contains_key(upper@[0]));
        let mut first = snapshot.table(upper[0]);
        let mut last = share(&first);
        let mut i: usize = 1;
        assert(upper@.take(1).len() == 1);
        while i < upper.len()
            invariant
                tables == snapshot.sstables@,
                present(tables, upper@),
                1 <= i <= upper@.len(),
                first.first_key_spec() == least_first_key(upper@.take(i as int), tables),
                last.last_key_spec() == largest_last_key(upper@.take(i as int), tables),
            decreases upper@.len() - i,
        {
            assert(upper@.take(i + 1).drop_last() =~= upper@.take(i as int));
            assert(upper@.take(i + 1).last() == upper@[i as int]);
            assert(tables.contains_key(upper@[i as int]));
            let table = snapshot.table(upper[i]);
            if key_less(table.first_key(), first.first_key()) {
                first = share(&table);
            }
            if key_less(last.last_key(), table.last_key()) {
                last = table;
            }
            i += 1;
        }
        assert(upper@.take(upper@.len() as int) =~= upper@);
        let mut r: Vec<usize> = Vec::new();
        let mut j: usize = 0;
        assert(ids@.take(0) =~= Seq::<usize>::empty());
        while j < ids.len()
            invariant
                tables == snapshot.sstables@,
                present(tables, ids@),
                j <= ids@.len(),
                r@ == overlapping(
                    ids@.take(j as int),
                    tables,
                    first.first_key_spec(),
                    last.last_key_spec(),
                ),
            decreases ids@.len() - j,
        {
            assert(ids@.take(j + 1).drop_last() =~= ids@.take(j as int));
            assert(ids@.take(j + 1).last() == ids@[j as int]);
            assert(tables.contains_key(ids@[j as int]));
            let table = snapshot.table(ids[j]);
            if !(key_less(table.last_key(), first.first_key()) || key_less(
                last.last_key(),
                table.first_key(),
            )) {
                r.push(ids[j]);
            }
            j += 1;
        }
        assert(ids@.take(ids@.len() as int) =~= ids@);
        r
    }

    /// The least of `ids`.
    fn oldest_of(ids: &Vec<usize>) -> (r: usize)
        requires
            ids@.len() > 0,
        ensures
            r == oldest(ids@),
    {
        let mut best = ids[0];
        let mut i: usize = 1;
        assert(ids@.take(1).len() == 1);
        assert(ids@.take(1)[0] == ids@[0]);
        while i < ids.len()
            invariant
                1 <= i <= ids@.len(),
                best == oldest(ids@.take(i as int)),
            decreases ids@.len() - i,
        {
            assert(ids@.take(i + 1).drop_last() =~= ids@.take(i as int));
            assert(ids@.take(i + 1).last() == ids@[i as int]);
            if ids[i] < best {
                best = ids[i];
            }
            i += 1;
        }
        assert(ids@.take(ids@.len() as int) =~= ids@);
        best
    }

    /// Generates a compaction task; `None` where nothing is to be
    /// compacted.
    pub fn generate_compaction_task(&self, snapshot: &LsmStorageState) -> (r: Option<
        LeveledCompactionTask,
    >)
        requires
            present(snapshot.sstables@, snapshot.l0_sstables@),
            forall|j: int|
                0 <= j < snapshot.levels@.len() ==> present(
                    snapshot.sstables@,
                    (#[trigger] snapshot.levels@[j]).1@,
                ),
        ensures
            match leveled_task(
                self.options_spec(),
                snapshot.l0_sstables@,
                levels_view(snapshot.levels@),
                snapshot.sstables@,
            ) {
                Some(t) => r matches Some(task) && task@ == t,
                None => r is None,
            },
    {
        let ghost levels = levels_view(snapshot.levels@);
        let ghost tables = snapshot.sstables@;
        let n = snapshot.levels.len();
        if n == 0 {
            return None;
        }
        let (sizes, targets) = self.sizes_and_targets(snapshot);
        if snapshot.l0_sstables.len() >= self.options.level0_file_num_compaction_trigger {
            let mut base: usize = 0;
            while base < n - 1 && targets[base] == 0
                invariant
                    base < n,
                    n == sizes@.len(),
                    n == targets@.len(),
                    forall|i: int|
                        0 <= i < n ==> #[trigger] targets@[i] == target_size(
                            sizes@,
                            self.options,
                            i,
                        ),
                    first_used(sizes@, self.options, 0) == first_used(
                        sizes@,
                        self.options,
                        base as int,
                    ),
                decreases n - base,
            {
                base += 1;
            }
            assert(first_used(sizes@, self.options, 0) == base);
            assert(levels[base as int].1 == snapshot.levels@[base as int].1@);
            assert(present(tables, snapshot.levels@[base as int].1@));
            let lower = Self::overlapped(snapshot, &snapshot.levels[base].1, &snapshot.l0_sstables);
            return Some(
                LeveledCompactionTask {
                    upper_level: None,
                    upper_level_sst_ids: copy_ids(&snapshot.l0_sstables),
                    lower_level: base + 1,
                    lower_level_sst_ids: lower,
                    is_lower_level_bottom_level: base + 1 == self.options.max_levels,
                },
            );
        }
        let mut best: Option<usize> = None;
        let mut i: usize = 0;
        while i < n
            invariant
                i <= n,
                n == sizes@.len(),
                n == targets@.len(),
                forall|x: int|
                    0 <= x < n ==> #[trigger] targets@[x] == target_size(sizes@, self.options, x),
                match best {
                    Some(b) => b < i && most_outgrown(sizes@, self.options, i as int) == Some(
                        b as int,
                    ),
                    None => most_outgrown(sizes@, self.options, i as int) is None,
                },
            decreases n - i,
        {
            let grown = i + 1 < n && targets[i] > 0 && sizes[i] > targets[i];
            assert(grown == outgrown(sizes@, self.options, i as int));
            if grown {
                match best {
                    Some(b) => {
                        proof {
                            lemma_product_fits(sizes@[i as int], targets@[b as int]);
                            lemma_product_fits(sizes@[b as int], targets@[i as int]);
                        }
                        let more = (sizes[i] as u128) * (targets[b] as u128) > (sizes[b] as u128) * (
                        targets[i] as u128);
                        assert(more == higher(sizes@, self.options, i as int, b as int)) by {
                            assert(targets@[b as int] == target_size(sizes@, self.options, b as int));
                            assert(targets@[i as int] == target_size(sizes@, self.options, i as int));
                        }
                        if more {
                            best = Some(i);
                        }
                    },
                    None => {
                        best = Some(i);
                    },
                }
            }
            i += 1;
        }
        proof {
            lemma_most_outgrown(sizes@, self.options, n as int);
        }
        match best {
            Some(level) => {
                assert(outgrown_somewhere(sizes@, self.options, n as int, level as int));
                assert(levels[level as int].1 == snapshot.levels@[level as int].1@);
                assert(levels[level + 1].1 == snapshot.levels@[level + 1].1@);
                assert(present(tables, snapshot.levels@[level as int].1@));
                assert(present(tables, snapshot.levels@[level + 1].1@));
                if snapshot.levels[level].1.len() == 0 {
                    // A level without tables has no size, and has not outgrown
                    // a target.
                    proof {
                        assert(sizes@[level as int] == clip64(level_bytes(levels[level as int].1, tables)));
                    }
                    return None;
                }
                let pick = Self::oldest_of(&snapshot.levels[level].1);
                let mut upper: Vec<usize> = Vec::new();
                upper.push(pick);
                assert(upper@ =~= seq![pick]);
                proof {
                    lemma_oldest_member(snapshot.levels@[level as int].1@);
                }
                let lower = Self::overlapped(snapshot, &snapshot.levels[level + 1].1, &upper);
                Some(
                    LeveledCompactionTask {
                        upper_level: Some(level + 1),
                        upper_level_sst_ids: upper,
                        lower_level: level + 2,
                        lower_level_sst_ids: lower,
                        is_lower_level_bottom_level: level + 2 == self.options.max_levels,
                    },
                )
            },
            None => None,
        }
    }

    /// `ids` in the order of the first keys of their tables.
    fn sort_by_key(snapshot: &LsmStorageState, ids: &Vec<usize>) -> (r: Vec<usize>)
        requires
            present(snapshot.sstables@, ids@),
        ensures
            r@ == sorted_by_key(ids@, snapshot.sstables@),
    {
        let ghost tables = snapshot.sstables@;
        let mut r: Vec<usize> = Vec::new();
        let mut i: usize = 0;
        assert(ids@.take(0) =~= Seq::<usize>::empty());
        while i < ids.len()
            invariant
                tables == snapshot.sstables@,
                present(tables, ids@),
                i <= ids@.len(),
                r@ == sorted_by_key(ids@.take(i as int), tables),
                present(tables, r@),
            decreases ids@.len() - i,
        {
            assert(ids@.take(i + 1).drop_last() =~= ids@.take(i as int));
            assert(ids@.take(i + 1).last() == ids@[i as int]);
            assert(tables.contains_key(ids@[i as int]));
            let id = ids[i];
            let table = snapshot.table(id);
            let mut at: usize = 0;
            let mut found = false;
            while at < r.len() && !found
                invariant
                    tables == snapshot.sstables@,
                    present(tables, r@),
                    tables.contains_key(id),
                    table == tables[id],
                    at <= r@.len(),
                    forall|j: int|
                        0 <= j < at ==> !key_lt(
                            tables[id].first_key_spec(),
                            tables[#[trigger] r@[j]].first_key_spec(),
                        ),
                    found ==> at < r@.len() && key_lt(
                        tables[id].first_key_spec(),
                        tables[r@[at as int]].first_key_spec(),
                    ),
                decreases r@.len() - at + if found { 0int } else { 1int },
            {
                assert(tables.contains_key(r@[at as int]));
                let other = snapshot.table(r[at]);
                if key_less(table.first_key(), other.first_key()) {
                    found = true;
                } else {
                    at += 1;
                }
            }
            proof {
                lemma_insert_by_key(r@, id, tables, at as int);
            }
            let ghost before = r@;
            r.insert(at, id);
            assert forall|j: int| 0 <= j < r@.len() implies tables.contains_key(#[trigger] r@[j]) by {
                if j < at {
                    assert(r@[j] == before[j]);
                } else if j > at {
                    assert(r@[j] == before[j - 1]);
                }
            }
            i += 1;
        }
        assert(ids@.take(ids@.len() as int) =~= ids@);
        r
    }

    /// Applies the result of a compaction: the tables of the task leave
    /// their levels, and the tables `output` are added to the lower level,
    /// which is then put in the order of first keys. While the store is
    /// being recovered (`in_recovery`) the tables are not open, and the
    /// level is left as it is. Only the lists of ids change; the second
    /// result holds the ids of the tables that left.
    pub fn apply_compaction_result(
        &self,
        snapshot: &LsmStorageState,
        task: &LeveledCompactionTask,
        output: &[usize],
        in_recovery: bool,
    ) -> (r: (LsmStorageState, Vec<usize>))
        requires
            applicable(levels_view(snapshot.levels@), task@),
            !in_recovery ==> present(
                snapshot.sstables@,
                without(snapshot.levels@[task.lower_level - 1].1@, task.lower_level_sst_ids@)
                    + output@,
            ),
        ensures
            r.0.memtable == snapshot.memtable,
            r.0.imm_memtables@ == snapshot.imm_memtables@,
            r.0.sstables@ == snapshot.sstables@,
            applied(
                snapshot.l0_sstables@,
                levels_view(snapshot.levels@),
                snapshot.sstables@,
                task@,
                output@,
                in_recovery,
                r.0.l0_sstables@,
                levels_view(r.0.levels@),
                r.1@,
            ),
    {
        let mut ns = snapshot.duplicate();
        let ghost before = levels_view(snapshot.levels@);
        let ghost v0 = ns.levels@;
        assert(levels_view(v0).len() == before.len());
        let mut removed: Vec<usize> = Vec::new();
        match task.upper_level {
            Some(upper_level) => {
                assert(levels_view(v0)[upper_level - 1] == before[upper_level - 1]);
                let (retained, gone) = split_ids(
                    &snapshot.levels[upper_level - 1].1,
                    &task.upper_level_sst_ids,
                );
                let number = ns.levels[upper_level - 1].0;
                ns.levels[upper_level - 1] = (number, retained);
                append_ids(&mut removed, gone.as_slice());
            },
            None => {
                let (retained, gone) = split_ids(&snapshot.l0_sstables, &task.upper_level_sst_ids);
                ns.l0_sstables = retained;
                append_ids(&mut removed, gone.as_slice());
            },
        }
        let ghost v1 = ns.levels@;
        let lower = task.lower_level - 1;
        let (mut retained, gone) = split_ids(&snapshot.levels[lower].1, &task.lower_level_sst_ids);
        append_ids(&mut removed, gone.as_slice());
        append_ids(&mut retained, output);
        let placed = if in_recovery {
            retained
        } else {
            Self::sort_by_key(snapshot, &retained)
        };
        assert(levels_view(v0)[lower as int] == before[lower as int]);
        let number = ns.levels[lower].0;
        ns.levels[lower] = (number, placed);
        proof {
            let v2 = ns.levels@;
            assert(levels_view(v2).len() == before.len());
            assert forall|i: int| 0 <= i < before.len() implies #[trigger] levels_view(v2)[i] == (
                before[i].0,
                if i == task.lower_level - 1 {
                    if in_recovery {
                        without(before[i].1, task.lower_level_sst_ids@) + output@
                    } else {
                        sorted_by_key(
                            without(before[i].1, task.lower_level_sst_ids@) + output@,
                            snapshot.sstables@,
                        )
                    }
                } else if task.upper_level matches Some(u) && u == i + 1 {
                    without(before[i].1, task.upper_level_sst_ids@)
                } else {
                    before[i].1
                },
            ) by {
                assert(before[i] == (snapshot.levels@[i].0, snapshot.levels@[i].1@));
                assert(levels_view(v0)[i] == before[i]);
                assert(levels_view(v0)[i] == (v0[i].0, v0[i].1@));
                assert(levels_view(v2)[i] == (v2[i].0, v2[i].1@));
                if i != lower {
                    assert(v2[i] == v1[i]);
                }
            }
        }
        (ns, removed)
    }
}

/// The product of two `u64` fits 128 bits.
pub proof fn lemma_product_fits(a: u64, b: u64)
    ensures
        a * b <= u128::MAX,
{
    assert(a * b <= 0xFFFF_FFFF_FFFF_FFFF * 0xFFFF_FFFF_FFFF_FFFF) by (nonlinear_arith)
        requires
            0 <= a <= 0xFFFF_FFFF_FFFF_FFFF,
            0 <= b <= 0xFFFF_FFFF_FFFF_FFFF,
    ;
}

/// The level at index `level` is the most outgrown of the first `upto`.
pub open spec fn outgrown_somewhere(
    sizes: Seq<u64>,
    options: LeveledCompactionOptions,
    upto: int,
    level: int,
) -> bool {
    most_outgrown(sizes, options, upto) == Some(level)
}

/// The most outgrown level has outgrown its target size, and so holds a
/// table.
pub proof fn lemma_most_outgrown(sizes: Seq<u64>, options: LeveledCompactionOptions, upto: int)
    ensures
        most_outgrown(sizes, options, upto) matches Some(i) ==> 0 <= i < upto && outgrown(
            sizes,
            options,
            i,
        ),
    decreases upto,
{
    if upto > 0 {
        lemma_most_outgrown(sizes, options, upto - 1);
    }
}

/// The least of ids is one of them.
pub proof fn lemma_oldest_member(ids: Seq<usize>)
    requires
        ids.len() > 0,
    ensures
        ids.contains(oldest(ids)),
    decreases ids.len(),
{
    if ids.len() > 1 {
        let front = ids.drop_last();
        lemma_oldest_member(front);
        if ids.last() < oldest(front) {
            assert(ids[ids.len() - 1] == ids.last());
        } else {
            let at = choose|at: int| 0 <= at < front.len() && front[at] == oldest(front);
            assert(ids[at] == oldest(front));
        }
    } else {
        assert(ids[0] == oldest(ids));
    }
}

} // verus!
