//! Simple leveled compaction: whole levels are merged into the next.

use vstd::prelude::*;
use crate::compact::{append_ids, only, split_ids, without};
use crate::lsm_storage::{copy_ids, levels_view, LsmStorageState};

verus! {

/// The options of simple leveled compaction.
#[derive(Debug, Clone, Copy, PartialEq, Eq, Structural)]
pub struct SimpleLeveledCompactionOptions {
    /// A level is merged into the next when the next holds fewer than this
    /// many tables for every hundred of the level.
    pub size_ratio_percent: usize,
    /// Level 0 is merged into level 1 when it holds this many tables.
    pub level0_file_num_compaction_trigger: usize,
    /// The number of levels below level 0.
    pub max_levels: usize,
}

/// A task of simple leveled compaction: merge the upper tables into the
/// lower level.
#[derive(Debug)]
pub struct SimpleLeveledCompactionTask {
    /// The upper level; `None` for level 0.
    pub upper_level: Option<usize>,
    /// The ids of the tables of the upper level.
    pub upper_level_sst_ids: Vec<usize>,
    /// The lower level.
    pub lower_level: usize,
    /// The ids of the tables of the lower level.
    pub lower_level_sst_ids: Vec<usize>,
    /// Whether the lower level is the last.
    pub is_lower_level_bottom_level: bool,
}

/// A task as plain values.
pub struct SimpleLeveledCompactionTaskView {
    /// The upper level; `None` for level 0.
    pub upper_level: Option<usize>,
    /// The ids of the tables of the upper level.
    pub upper_level_sst_ids: Seq<usize>,
    /// The lower level.
    pub lower_level: usize,
    /// The ids of the tables of the lower level.
    pub lower_level_sst_ids: Seq<usize>,
    /// Whether the lower level is the last.
    pub is_lower_level_bottom_level: bool,
}

impl View for SimpleLeveledCompactionTask {
    type V = SimpleLeveledCompactionTaskView;

    open spec fn view(&self) -> SimpleLeveledCompactionTaskView {
        SimpleLeveledCompactionTaskView {
            upper_level: self.upper_level,
            upper_level_sst_ids: self.upper_level_sst_ids@,
            lower_level: self.lower_level,
            lower_level_sst_ids: self.lower_level_sst_ids@,
            is_lower_level_bottom_level: self.is_lower_level_bottom_level,
        }
    }
}

/// The lower level is too small for the upper: it holds fewer than
/// `ratio` tables for every hundred of the upper level.
pub open spec fn too_small(upper: nat, lower: nat, ratio: nat) -> bool {
    upper > 0 && lower * 100 < ratio * upper
}

/// The first level from `from` on, below `max_levels`, whose next level is
/// too small for it.
pub open spec fn first_crowded_level(
    levels: Seq<(usize, Seq<usize>)>,
    ratio: nat,
    max_levels: nat,
    from: nat,
) -> Option<nat>
    decreases levels.len() - from,
{
    if from >= max_levels || from >= levels.len() {
        None
    } else if from >= 1 && too_small(levels[from - 1].1.len(), levels[from as int].1.len(), ratio) {
        Some(from)
    } else {
        first_crowded_level(levels, ratio, max_levels, from + 1)
    }
}

/// The task that the options call for in a state with the level-0 tables
/// `l0` and the levels `levels`: level 0 into level 1 where level 0 holds
/// enough tables, and else the first level whose next level is too small
/// into that next level.
pub open spec fn simple_task(
    options: SimpleLeveledCompactionOptions,
    l0: Seq<usize>,
    levels: Seq<(usize, Seq<usize>)>,
) -> Option<SimpleLeveledCompactionTaskView> {
    if l0.len() >= options.level0_file_num_compaction_trigger {
        Some(
            SimpleLeveledCompactionTaskView {
                upper_level: None,
                upper_level_sst_ids: l0,
                lower_level: 1,
                lower_level_sst_ids: if levels.len() > 0 {
                    levels[0].1
                } else {
                    Seq::empty()
                },
                is_lower_level_bottom_level: false,
            },
        )
    } else {
        match first_crowded_level(
            levels,
            options.size_ratio_percent as nat,
            options.max_levels as nat,
            1,
        ) {
            Some(i) => Some(
                SimpleLeveledCompactionTaskView {
                    upper_level: Some(i as usize),
                    upper_level_sst_ids: levels[i - 1].1,
                    lower_level: (i + 1) as usize,
                    lower_level_sst_ids: levels[i as int].1,
                    is_lower_level_bottom_level: i + 1 == options.max_levels,
                },
            ),
            None => None,
        }
    }
}

/// The levels of the task are levels of the store.
pub open spec fn applicable(
    levels: Seq<(usize, Seq<usize>)>,
    task: SimpleLeveledCompactionTaskView,
) -> bool {
    &&& 1 <= task.lower_level <= levels.len()
    &&& task.upper_level matches Some(u) ==> 1 <= u <= levels.len() && u != task.lower_level
}

/// What applying the result of a task does to the lists of ids: the
/// tables of the task leave the upper and the lower level, the tables
/// `output` are added to the lower level, and `removed` holds the ids of
/// the tables that left, those of the upper level first.
pub open spec fn applied(
    l0: Seq<usize>,
    levels: Seq<(usize, Seq<usize>)>,
    task: SimpleLeveledCompactionTaskView,
    output: Seq<usize>,
    new_l0: Seq<usize>,
    new_levels: Seq<(usize, Seq<usize>)>,
    removed: Seq<usize>,
) -> bool {
    &&& new_levels.len() == levels.len()
    &&& new_l0 == if task.upper_level is None {
        without(l0, task.upper_level_sst_ids)
    } else {
        l0
    }
    &&& forall|i: int|
        0 <= i < levels.len() ==> #[trigger] new_levels[i] == (
            levels[i].0,
            if i == task.lower_level - 1 {
                without(levels[i].1, task.lower_level_sst_ids) + output
            } else if task.upper_level matches Some(u) && u == i + 1 {
                without(levels[i].1, task.upper_level_sst_ids)
            } else {
                levels[i].1
            },
        )
    &&& removed == match task.upper_level {
        Some(u) => only(levels[u - 1].1, task.upper_level_sst_ids),
        None => only(l0, task.upper_level_sst_ids),
    } + only(levels[task.lower_level - 1].1, task.lower_level_sst_ids)
}

/// The first level whose next level is too small for it is a level of the
/// store that has a next level.
pub proof fn lemma_first_crowded_level(
    levels: Seq<(usize, Seq<usize>)>,
    ratio: nat,
    max_levels: nat,
    from: nat,
)
    ensures
        first_crowded_level(levels, ratio, max_levels, from) matches Some(i) ==> from <= i && 1
            <= i < levels.len() && i < max_levels,
    decreases levels.len() - from,
{
    if from < max_levels && from < levels.len() && !(from >= 1 && too_small(
        levels[from - 1].1.len(),
        levels[from as int].1.len(),
        ratio,
    )) {
        lemma_first_crowded_level(levels, ratio, max_levels, from + 1);
    }
}

/// Decides what simple leveled compaction does next.
pub struct SimpleLeveledCompactionController {
    options: SimpleLeveledCompactionOptions,
}

impl SimpleLeveledCompactionController {
    /// The options of the controller.
    pub closed spec fn options_spec(&self) -> SimpleLeveledCompactionOptions {
        self.options
    }

    /// Creates a controller with `options`.
    pub fn new(options: SimpleLeveledCompactionOptions) -> (r: Self)
        ensures
            r.options_spec() == options,
    {
        Self { options }
    }

    /// Generates a compaction task; `None` where nothing is to be
    /// compacted.
    pub fn generate_compaction_task(&self, snapshot: &LsmStorageState) -> (r: Option<
        SimpleLeveledCompactionTask,
    >)
        ensures
            match simple_task(
                self.options_spec(),
                snapshot.l0_sstables@,
                levels_view(snapshot.levels@),
            ) {
                Some(t) => r matches Some(task) && task@ == t,
                None => r is None,
            },
    {
        let ghost levels = levels_view(snapshot.levels@);
        if snapshot.l0_sstables.len() >= self.options.level0_file_num_compaction_trigger {
            let lower = if snapshot.levels.len() > 0 {
                assert(levels[0].1 == snapshot.levels@[0].1@);
                copy_ids(&snapshot.levels[0].1)
            } else {
                Vec::new()
            };
            return Some(
                SimpleLeveledCompactionTask {
                    upper_level: None,
                    upper_level_sst_ids: copy_ids(&snapshot.l0_sstables),
                    lower_level: 1,
                    lower_level_sst_ids: lower,
                    is_lower_level_bottom_level: false,
                },
            );
        }
        let ratio = self.options.size_ratio_percent;
        let max_levels = self.options.max_levels;
        let mut i: usize = 1;
        while i < max_levels && i < snapshot.levels.len()
            invariant
                1 <= i,
                levels == levels_view(snapshot.levels@),
                snapshot.l0_sstables@.len() < self.options.level0_file_num_compaction_trigger,
                ratio == self.options.size_ratio_percent,
                max_levels == self.options.max_levels,
                first_crowded_level(levels, ratio as nat, max_levels as nat, 1)
                    == first_crowded_level(levels, ratio as nat, max_levels as nat, i as nat),
            decreases snapshot.levels@.len() - i,
        {
            assert(levels[i - 1].1 == snapshot.levels@[i - 1].1@);
            assert(levels[i as int].1 == snapshot.levels@[i as int].1@);
            let upper = snapshot.levels[i - 1].1.len();
            let lower = snapshot.levels[i].1.len();
            assert(ratio * upper <= 0xFFFF_FFFF_FFFF_FFFF * 0xFFFF_FFFF_FFFF_FFFF) by (nonlinear_arith)
                requires
                    0 <= ratio <= 0xFFFF_FFFF_FFFF_FFFF,
                    0 <= upper <= 0xFFFF_FFFF_FFFF_FFFF,
            ;
            let crowded = upper > 0 && (lower as u128) * 100 < (ratio as u128) * (upper as u128);
            if crowded {
                return Some(
                    SimpleLeveledCompactionTask {
                        upper_level: Some(i),
                        upper_level_sst_ids: copy_ids(&snapshot.levels[i - 1].1),
                        lower_level: i + 1,
                        lower_level_sst_ids: copy_ids(&snapshot.levels[i].1),
                        is_lower_level_bottom_level: i + 1 == max_levels,
                    },
                );
            }
            i += 1;
        }
        None
    }

    /// Applies the result of a compaction: the tables of the task leave
    /// their levels, and the tables `output` are added to the lower level.
    /// Only the lists of ids change; the second result holds the ids of the
    /// tables that left.
    pub fn apply_compaction_result(
        &self,
        snapshot: &LsmStorageState,
        task: &SimpleLeveledCompactionTask,
        output: &[usize],
    ) -> (r: (LsmStorageState, Vec<usize>))
        requires
            applicable(levels_view(snapshot.levels@), task@),
        ensures
            r.0.memtable == snapshot.memtable,
            r.0.imm_memtables@ == snapshot.imm_memtables@,
            r.0.sstables@ == snapshot.sstables@,
            applied(
                snapshot.l0_sstables@,
                levels_view(snapshot.levels@),
                task@,
                output@,
                r.0.l0_sstables@,
                levels_view(r.0.levels@),
                r.1@,
            ),
    {
        let mut ns = snapshot.duplicate();
        let ghost before = levels_view(snapshot.levels@);
        let ghost v0 = ns.levels@;
        assert(levels_view(v0).len() == before.len());
        let mut removed: Vec<usize> = Vec::new();
        match task.upper_level {
            Some(upper_level) => {
                assert(levels_view(v0)[upper_level - 1] == before[upper_level - 1]);
                let (retained, gone) = split_ids(
                    &snapshot.levels[upper_level - 1].1,
                    &task.upper_level_sst_ids,
                );
                let number = ns.levels[upper_level - 1].0;
                ns.levels[upper_level - 1] = (number, retained);
                append_ids(&mut removed, gone.as_slice());
            },
            None => {
                let (retained, gone) = split_ids(&snapshot.l0_sstables, &task.upper_level_sst_ids);
                ns.l0_sstables = retained;
                append_ids(&mut removed, gone.as_slice());
            },
        }
        let ghost v1 = ns.levels@;
        let lower = task.lower_level - 1;
        let (mut retained, gone) = split_ids(&snapshot.levels[lower].1, &task.lower_level_sst_ids);
        append_ids(&mut removed, gone.as_slice());
        append_ids(&mut retained, output);
        assert(levels_view(v0)[lower as int] == before[lower as int]);
        let number = ns.levels[lower].0;
        ns.levels[lower] = (number, retained);
        proof {
            let v2 = ns.levels@;
            assert(levels_view(v2).len() == before.len());
            assert forall|i: int| 0 <= i < before.len() implies #[trigger] levels_view(v2)[i] == (
                before[i].0,
                if i == task.lower_level - 1 {
                    without(before[i].1, task.lower_level_sst_ids@) + output@
                } else if task.upper_level matches Some(u) && u == i + 1 {
                    without(before[i].1, task.upper_level_sst_ids@)
                } else {
                    before[i].1
                },
            ) by {
                assert(before[i] == (snapshot.levels@[i].0, snapshot.levels@[i].1@));
                assert(levels_view(v0)[i] == before[i]);
                assert(levels_view(v0)[i] == (v0[i].0, v0[i].1@));
                assert(levels_view(v2)[i] == (v2[i].0, v2[i].1@));
                if i != lower {
                    assert(v2[i] == v1[i]);
                }
            }
        }
        (ns, removed)
    }
}

} // verus!
