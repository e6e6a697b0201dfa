//! Tiered compaction: every tier is one sorted run, and whole tiers are
//! merged.

use vstd::prelude::*;
use crate::compact::append_ids;
use crate::lsm_storage::{copy_ids, copy_levels, levels_view, LsmStorageState};

verus! {

/// The options of tiered compaction.
#[derive(Debug, Clone, Copy, PartialEq, Eq, Structural)]
pub struct TieredCompactionOptions {
    /// The number of tiers above which the upper tiers are merged.
    pub num_tiers: usize,
    /// All tiers are merged when the upper tiers hold this many tables for
    /// every hundred of the last tier.
    pub max_size_amplification_percent: usize,
    /// The upper tiers are merged with a tier when they hold more than
    /// `100 + size_ratio` tables for every hundred of that tier.
    pub size_ratio: usize,
    /// The least number of tiers that a merge by size ratio takes.
    pub min_merge_width: usize,
}

/// A task of tiered compaction: merge the tiers into one.
#[derive(Debug)]
pub struct TieredCompactionTask {
    /// The tiers to merge, each with its id and the ids of its tables.
    pub tiers: Vec<(usize, Vec<usize>)>,
    /// Whether the last tier of the store is among them.
    pub bottom_tier_included: bool,
}

/// A task as plain values.
pub struct TieredCompactionTaskView {
    /// The tiers to merge, each with its id and the ids of its tables.
    pub tiers: Seq<(usize, Seq<usize>)>,
    /// Whether the last tier of the store is among them.
    pub bottom_tier_included: bool,
}

impl View for TieredCompactionTask {
    type V = TieredCompactionTaskView;

    open spec fn view(&self) -> TieredCompactionTaskView {
        TieredCompactionTaskView {
            tiers: levels_view(self.tiers@),
            bottom_tier_included: self.bottom_tier_included,
        }
    }
}

/// The number of tables in the first `n` tiers.
pub open spec fn tables_in(tiers: Seq<(usize, Seq<usize>)>, n: int) -> nat
    decreases n,
{
    if n <= 0 {
        0
    } else {
        tables_in(tiers, n - 1) + tiers[n - 1].1.len()
    }
}

/// The ids of the tables of all tiers, in order.
pub open spec fn all_ids(tiers: Seq<(usize, Seq<usize>)>) -> Seq<usize>
    decreases tiers.len(),
{
    if tiers.len() == 0 {
        Seq::empty()
    } else {
        all_ids(tiers.drop_last()) + tiers.last().1
    }
}

/// The tiers above the last hold at least `percent` tables for every
/// hundred of the last tier.
pub open spec fn amplified(tiers: Seq<(usize, Seq<usize>)>, percent: nat) -> bool {
    &&& tiers.len() >= 1
    &&& tiers.last().1.len() > 0
    &&& tables_in(tiers, tiers.len() - 1) * 100 >= percent * tiers.last().1.len()
}

/// The tiers above tier `k` hold more than `100 + size_ratio` tables for
/// every hundred of tier `k`, and a merge down to tier `k` is wide enough.
pub open spec fn outweighed(
    tiers: Seq<(usize, Seq<usize>)>,
    k: int,
    size_ratio: nat,
    min_width: nat,
) -> bool {
    &&& tiers[k].1.len() > 0
    &&& tables_in(tiers, k) * 100 > (100 + size_ratio) * tiers[k].1.len()
    &&& k + 1 >= min_width
}

/// The first tier from `from` on that the tiers above it outweigh.
pub open spec fn first_outweighed(
    tiers: Seq<(usize, Seq<usize>)>,
    size_ratio: nat,
    min_width: nat,
    from: nat,
) -> Option<nat>
    decreases tiers.len() - from,
{
    if from >= tiers.len() {
        None
    } else if outweighed(tiers, from as int, size_ratio, min_width) {
        Some(from)
    } else {
        first_outweighed(tiers, size_ratio, min_width, from + 1)
    }
}

/// The number of upper tiers to merge so that `num_tiers` tiers are left.
pub open spec fn surplus(count: nat, num_tiers: nat) -> nat {
    if num_tiers == 0 {
        count
    } else {
        (count - num_tiers + 1) as nat
    }
}

/// The task that the options call for in a store with the tiers `tiers`:
/// all tiers where the last tier is outgrown; else down to the first tier
/// that the tiers above it outweigh; else, where there are too many tiers,
/// as many upper tiers as are too many, and one more.
pub open spec fn tiered_task(
    options: TieredCompactionOptions,
    tiers: Seq<(usize, Seq<usize>)>,
) -> Option<TieredCompactionTaskView> {
    if amplified(tiers, options.max_size_amplification_percent as nat) {
        Some(TieredCompactionTaskView { tiers, bottom_tier_included: true })
    } else {
        match first_outweighed(tiers, options.size_ratio as nat, options.min_merge_width as nat, 0) {
            Some(k) => Some(
                TieredCompactionTaskView {
                    tiers: tiers.take((k + 1) as int),
                    bottom_tier_included: k + 1 == tiers.len(),
                },
            ),
            None => if tiers.len() > options.num_tiers {
                Some(
                    TieredCompactionTaskView {
                        tiers: tiers.take(surplus(tiers.len(), options.num_tiers as nat) as int),
                        bottom_tier_included: surplus(tiers.len(), options.num_tiers as nat)
                            == tiers.len(),
                    },
                )
            } else {
                None
            },
        }
    }
}

/// The index of the first tier with the id `id`, or the number of tiers
/// where there is none.
pub open spec fn tier_index(tiers: Seq<(usize, Seq<usize>)>, id: usize) -> int
    decreases tiers.len(),
{
    if tiers.len() == 0 || tiers[0].0 == id {
        0
    } else {
        1 + tier_index(tiers.skip(1), id)
    }
}

/// The index of a tier lies within the tiers, or is their number.
pub proof fn lemma_tier_index(tiers: Seq<(usize, Seq<usize>)>, id: usize)
    ensures
        0 <= tier_index(tiers, id) <= tiers.len(),
        tier_index(tiers, id) < tiers.len() ==> tiers[tier_index(tiers, id)].0 == id,
        forall|i: int| 0 <= i < tier_index(tiers, id) ==> (#[trigger] tiers[i]).0 != id,
    decreases tiers.len(),
{
    if tiers.len() > 0 && tiers[0].0 != id {
        let rest = tiers.skip(1);
        lemma_tier_index(rest, id);
        assert forall|i: int| 0 <= i < tier_index(tiers, id) implies (#[trigger] tiers[i]).0
            != id by {
            if i > 0 {
                assert(rest[i - 1].0 != id);
            }
        }
    }
}

/// A number of tables beyond which every ratio of the options is
/// exceeded.
pub const CAP: u128 = 0x800_0000_0000_0000_0000_0000_0000_0000;

/// `n`, or `CAP` where `n` is larger.
pub open spec fn capped(n: nat) -> u128 {
    if n <= CAP {
        n as u128
    } else {
        CAP
    }
}

/// Whether `above` tables, counted up to `CAP`, are more than
/// `100 + size_ratio` for every hundred of `len`.
fn outweighs(above: u128, size_ratio: usize, len: usize) -> (r: bool)
    requires
        above <= CAP,
    ensures
        forall|n: nat| capped(n) == above ==> r == (n * 100 > (100 + size_ratio) * len),
{
    // The hundredth part of `(100 + size_ratio) * len`, rounded down.
    let ratio: u128 = 100 + size_ratio as u128;
    let whole: u128 = ratio / 100;
    let rest: u128 = ratio % 100;
    assert(whole * len <= 0x28F_5C28_F5C2_8F5D * 0xFFFF_FFFF_FFFF_FFFF) by (nonlinear_arith)
        requires
            0 <= whole <= 0x28F_5C28_F5C2_8F5D,
            0 <= len <= 0xFFFF_FFFF_FFFF_FFFF,
    ;
    assert(rest * len <= 99 * 0xFFFF_FFFF_FFFF_FFFF) by (nonlinear_arith)
        requires
            0 <= rest <= 99,
            0 <= len <= 0xFFFF_FFFF_FFFF_FFFF,
    ;
    let part: u128 = rest * (len as u128);
    let hundredth: u128 = whole * (len as u128) + part / 100;
    proof {
        let left = part % 100;
        assert((100 + size_ratio) * len == 100 * (whole * len) + rest * len) by (nonlinear_arith)
            requires
                100 + size_ratio == 100 * whole + rest,
        ;
        assert((100 + size_ratio) * len == 100 * hundredth + left);
        assert forall|n: nat| capped(n) == above implies (above > hundredth) == (n * 100 > (100
            + size_ratio) * len) by {
            if n > CAP {
                assert(n > hundredth);
            }
        }
    }
    above > hundredth
}

/// Whether `upper` tables, counted up to `CAP`, are at least `percent` for
/// every hundred of `last`.
fn reaches(upper: u128, percent: usize, last: usize) -> (r: bool)
    requires
        upper <= CAP,
    ensures
        forall|n: nat| capped(n) == upper ==> r == (n * 100 >= percent * last),
{
    assert(percent * last <= 0xFFFF_FFFF_FFFF_FFFF * 0xFFFF_FFFF_FFFF_FFFF) by (nonlinear_arith)
        requires
            0 <= percent <= 0xFFFF_FFFF_FFFF_FFFF,
            0 <= last <= 0xFFFF_FFFF_FFFF_FFFF,
    ;
    // The hundredth part of `percent * last`, rounded up.
    let product: u128 = (percent as u128) * (last as u128);
    let hundredth: u128 = (product + 99) / 100;
    proof {
        assert forall|n: nat| capped(n) == upper implies (upper >= hundredth) == (n * 100 >= percent
            * last) by {
            if n > CAP {
                assert(n >= hundredth);
            }
        }
    }
    upper >= hundredth
}

/// The tiers of the task stand together in the store, from the first tier
/// that has the id of the first of them.
pub open spec fn applicable(tiers: Seq<(usize, Seq<usize>)>, task: TieredCompactionTaskView) -> bool {
    &&& task.tiers.len() > 0
    &&& tier_index(tiers, task.tiers[0].0) + task.tiers.len() <= tiers.len()
    &&& tiers.subrange(
        tier_index(tiers, task.tiers[0].0),
        tier_index(tiers, task.tiers[0].0) + task.tiers.len(),
    ) == task.tiers
}

/// What applying the result of a task does to the lists of ids: the tiers
/// of the task give way to one tier that holds the tables `output` and has
/// the first of their ids as its id, or to none where there is no output;
/// `removed` holds the ids of the tables of the tiers of the task.
pub open spec fn applied(
    l0: Seq<usize>,
    tiers: Seq<(usize, Seq<usize>)>,
    task: TieredCompactionTaskView,
    output: Seq<usize>,
    new_l0: Seq<usize>,
    new_tiers: Seq<(usize, Seq<usize>)>,
    removed: Seq<usize>,
) -> bool {
    &&& new_l0 == l0
    &&& new_tiers == tiers.take(tier_index(tiers, task.tiers[0].0)) + (if output.len() > 0 {
        seq![(output[0], output)]
    } else {
        Seq::<(usize, Seq<usize>)>::empty()
    }) + tiers.skip(tier_index(tiers, task.tiers[0].0) + task.tiers.len())
    &&& removed == all_ids(task.tiers)
}

/// The first tier that the tiers above it outweigh is a tier of the store.
pub proof fn lemma_first_outweighed(
    tiers: Seq<(usize, Seq<usize>)>,
    size_ratio: nat,
    min_width: nat,
    from: nat,
)
    ensures
        first_outweighed(tiers, size_ratio, min_width, from) matches Some(k) ==> from <= k
            < tiers.len(),
    decreases tiers.len() - from,
{
    if from < tiers.len() && !outweighed(tiers, from as int, size_ratio, min_width) {
        lemma_first_outweighed(tiers, size_ratio, min_width, from + 1);
    }
}

/// The first `n` of `tiers`, copied.
fn take_tiers(tiers: &Vec<(usize, Vec<usize>)>, n: usize) -> (r: Vec<(usize, Vec<usize>)>)
    requires
        n <= tiers@.len(),
    ensures
        levels_view(r@) == levels_view(tiers@).take(n as int),
{
    let mut r: Vec<(usize, Vec<usize>)> = Vec::new();
    let mut i: usize = 0;
    while i < n
        invariant
            i <= n <= tiers@.len(),
            r@.len() == i,
            levels_view(r@) == levels_view(tiers@).take(i as int),
        decreases n - i,
    {
        let ghost before = r@;
        let ids = copy_ids(&tiers[i].1);
        r.push((tiers[i].0, ids));
        proof {
            assert forall|j: int| 0 <= j < i + 1 implies levels_view(r@)[j] == levels_view(
                tiers@,
            ).take(i + 1)[j] by {
                if j < i {
                    assert(r@[j] == before[j]);
                    assert(levels_view(before)[j] == levels_view(tiers@).take(i as int)[j]);
                }
            }
            assert(levels_view(r@) =~= levels_view(tiers@).take(i + 1));
        }
        i += 1;
    }
    r
}

/// Decides what tiered compaction does next.
pub struct TieredCompactionController {
    options: TieredCompactionOptions,
}

impl TieredCompactionController {
    /// The options of the controller.
    pub closed spec fn options_spec(&self) -> TieredCompactionOptions {
        self.options
    }

    /// Creates a controller with `options`.
    pub fn new(options: TieredCompactionOptions) -> (r: Self)
        ensures
            r.options_spec() == options,
    {
        Self { options }
    }

    /// Generates a compaction task; `None` where nothing is to be
    /// compacted.
    pub fn generate_compaction_task(&self, snapshot: &LsmStorageState) -> (r: Option<
        TieredCompactionTask,
    >)
        ensures
            match tiered_task(self.options_spec(), levels_view(snapshot.levels@)) {
                Some(t) => r matches Some(task) && task@ == t,
                None => r is None,
            },
    {
        let ghost tiers = levels_view(snapshot.levels@);
        let n = snapshot.levels.len();
        let percent = self.options.max_size_amplification_percent;
        let size_ratio = self.options.size_ratio;
        let min_width = self.options.min_merge_width;
        // The number of tables above each tier, as far as it matters, and
        // the first tier that they outweigh.
        let mut above: u128 = 0;
        let mut upper: u128 = 0;
        let mut found: Option<usize> = None;
        let mut k: usize = 0;
        while k < n
            invariant
                k <= n,
                n == snapshot.levels@.len(),
                tiers == levels_view(snapshot.levels@),
                above == capped(tables_in(tiers, k as int)),
                k > 0 ==> upper == capped(tables_in(tiers, k - 1)),
                match found {
                    Some(f) => f < k && first_outweighed(tiers, size_ratio as nat, min_width as nat, 0)
                        == Some(f as nat),
                    None => first_outweighed(tiers, size_ratio as nat, min_width as nat, 0)
                        == first_outweighed(tiers, size_ratio as nat, min_width as nat, k as nat),
                },
            decreases n - k,
        {
            assert(tiers[k as int].1 == snapshot.levels@[k as int].1@);
            let len = snapshot.levels[k].1.len();
            if found.is_none() {
                let heavy = len > 0 && outweighs(above, size_ratio, len) && k + 1 >= min_width;
                if heavy {
                    found = Some(k);
                }
            }
            upper = above;
            above = if above + len as u128 > CAP {
                CAP
            } else {
                above + len as u128
            };
            k += 1;
        }
        if n >= 1 {
            assert(tiers.last().1 == snapshot.levels@[n - 1].1@);
            let last = snapshot.levels[n - 1].1.len();
            if last > 0 && reaches(upper, percent, last) {
                return Some(
                    TieredCompactionTask { tiers: copy_levels(&snapshot.levels), bottom_tier_included: true },
                );
            }
        }
        match found {
            Some(f) => {
                return Some(
                    TieredCompactionTask {
                        tiers: take_tiers(&snapshot.levels, f + 1),
                        bottom_tier_included: f + 1 == n,
                    },
                );
            },
            None => {},
        }
        if n > self.options.num_tiers {
            let take = if self.options.num_tiers == 0 {
                n
            } else {
                n - self.options.num_tiers + 1
            };
            return Some(
                TieredCompactionTask {
                    tiers: take_tiers(&snapshot.levels, take),
                    bottom_tier_included: take == n,
                },
            );
        }
        None
    }

    /// Applies the result of a compaction: the tiers of the task, which
    /// stand together in the store, give way to one tier that holds the
    /// tables `output` and has the first of their ids as its id. Only the
    /// list of tiers changes; the second result holds the ids of the tables
    /// that left.
    pub fn apply_compaction_result(
        &self,
        snapshot: &LsmStorageState,
        task: &TieredCompactionTask,
        output: &[usize],
    ) -> (r: (LsmStorageState, Vec<usize>))
        requires
            applicable(levels_view(snapshot.levels@), task@),
        ensures
            r.0.memtable == snapshot.memtable,
            r.0.imm_memtables@ == snapshot.imm_memtables@,
            r.0.sstables@ == snapshot.sstables@,
            applied(
                snapshot.l0_sstables@,
                levels_view(snapshot.levels@),
                task@,
                output@,
                r.0.l0_sstables@,
                levels_view(r.0.levels@),
                r.1@,
            ),
    {
        let ghost tiers = levels_view(snapshot.levels@);
        let first_id = task.tiers[0].0;
        let ghost p = tier_index(tiers, first_id);
        let m = task.tiers.len();
        proof {
            lemma_tier_index(tiers, first_id);
        }
        let base = snapshot.duplicate();
        let mut levels: Vec<(usize, Vec<usize>)> = Vec::new();
        let n = snapshot.levels.len();
        // The tiers before the first tier of the task.
        let mut i: usize = 0;
        while i < n && snapshot.levels[i].0 != first_id
            invariant
                i <= n,
                n == snapshot.levels@.len(),
                tiers == levels_view(snapshot.levels@),
                p == tier_index(tiers, first_id),
                i <= p,
                forall|j: int| 0 <= j < p ==> (#[trigger] tiers[j]).0 != first_id,
                p < tiers.len() ==> tiers[p].0 == first_id,
                levels@.len() == i,
                levels_view(levels@) == tiers.take(i as int),
            decreases n - i,
        {
            assert(tiers[i as int].0 == snapshot.levels@[i as int].0);
            let ghost before = levels@;
            let ids = copy_ids(&snapshot.levels[i].1);
            levels.push((snapshot.levels[i].0, ids));
            proof {
                assert forall|j: int| 0 <= j < i + 1 implies levels_view(levels@)[j] == tiers.take(
                    i + 1,
                )[j] by {
                    if j < i {
                        assert(levels@[j] == before[j]);
                        assert(levels_view(before)[j] == tiers.take(i as int)[j]);
                    }
                }
                assert(levels_view(levels@) =~= tiers.take(i + 1));
            }
            i += 1;
        }
        proof {
            if i < n {
                assert(tiers[i as int].0 == snapshot.levels@[i as int].0);
            }
            assert(i == p);
        }
        // The new tier.
        if output.len() > 0 {
            let mut ids: Vec<usize> = Vec::new();
            append_ids(&mut ids, output);
            let ghost before = levels@;
            levels.push((output[0], ids));
            proof {
                assert(ids@ =~= output@);
                assert forall|j: int| 0 <= j < levels@.len() implies levels_view(levels@)[j] == (
                    tiers.take(p) + seq![(output@[0], output@)])[j] by {
                    if j < p {
                        assert(levels@[j] == before[j]);
                        assert(levels_view(before)[j] == tiers.take(p)[j]);
                    }
                }
                assert(levels_view(levels@) =~= tiers.take(p) + seq![(output@[0], output@)]);
            }
        } else {
            assert(levels_view(levels@) =~= tiers.take(p) + Seq::<(usize, Seq<usize>)>::empty());
        }
        let ghost head = levels_view(levels@);
        let ghost head_len = levels@.len();
        // The tiers behind the last tier of the task.
        let mut j: usize = i + m;
        while j < n
            invariant
                0 <= p,
                p + m <= j <= n,
                n == snapshot.levels@.len(),
                n == tiers.len(),
                tiers == levels_view(snapshot.levels@),
                head.len() == head_len,
                levels@.len() == head_len + (j - p - m),
                levels_view(levels@) == head + tiers.subrange(p + m, j as int),
            decreases n - j,
        {
            let ghost before = levels@;
            let ids = copy_ids(&snapshot.levels[j].1);
            levels.push((snapshot.levels[j].0, ids));
            proof {
                let want = head + tiers.subrange(p + m, j + 1);
                assert forall|x: int| 0 <= x < levels@.len() implies levels_view(levels@)[x]
                    == want[x] by {
                    if x < before.len() {
                        assert(levels@[x] == before[x]);
                        assert(levels_view(before)[x] == (head + tiers.subrange(p + m, j as int))[x]);
                    } else {
                        assert(tiers[j as int] == (snapshot.levels@[j as int].0, snapshot.levels@[j as int].1@));
                    }
                }
                assert(levels_view(levels@) =~= want);
            }
            j += 1;
        }
        assert(tiers.subrange(p + m, n as int) =~= tiers.skip(p + m));
        // The ids of the tables that leave.
        let mut removed: Vec<usize> = Vec::new();
        let mut t: usize = 0;
        let ghost gone = levels_view(task.tiers@);
        assert(gone.take(0) =~= Seq::<(usize, Seq<usize>)>::empty());
        while t < m
            invariant
                t <= m,
                m == task.tiers@.len(),
                gone == levels_view(task.tiers@),
                removed@ == all_ids(gone.take(t as int)),
            decreases m - t,
        {
            assert(gone.take(t + 1).drop_last() =~= gone.take(t as int));
            assert(gone.take(t + 1).last() == gone[t as int]);
            assert(gone[t as int].1 == task.tiers@[t as int].1@);
            append_ids(&mut removed, task.tiers[t].1.as_slice());
            t += 1;
        }
        assert(gone.take(m as int) =~= gone);
        let ns = LsmStorageState {
            memtable: base.memtable,
            imm_memtables: base.imm_memtables,
            l0_sstables: base.l0_sstables,
            levels,
            sstables: base.sstables,
        };
        (ns, removed)
    }
}

} // verus!
