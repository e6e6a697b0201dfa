//! The iterator family.
//!
//! Every iterator walks a run: `remaining` is what is left of it, the
//! current entry first. Merging iterators overlay runs, the run that comes
//! first winning where a key occurs in several.

pub mod concat_iterator;
pub mod merge_iterator;
pub mod two_merge_iterator;

use vstd::prelude::*;
use crate::error::Error;
use crate::key::{key_le, key_lt, lemma_key_le_lt, lemma_key_lt_asymmetric, lemma_key_lt_total};
use crate::run::{
    is_run, lemma_first_key_least, lemma_lookup_below, lemma_lookup_skip, lemma_run_prepend,
    lemma_run_skip, lookup, Entry,
};

verus! {

/// What every iterator of the family can do.
pub trait StorageIterator {
    /// The iterator's invariant.
    spec fn wf(&self) -> bool;

    /// The entries from the current one to the last.
    spec fn remaining(&self) -> Seq<Entry>;

    /// Whether `next` of this type of iterator never fails.
    spec fn infallible() -> bool;

    /// What is left is a run: the keys that `next` walks ascend strictly.
    proof fn lemma_remaining(&self)
        requires
            self.wf(),
        ensures
            is_run(self.remaining()),
    ;

    /// The current key. On an iterator that is not valid the bytes are
    /// arbitrary.
    fn key(&self) -> (k: &[u8])
        requires
            self.wf(),
        ensures
            self.remaining().len() > 0 ==> k@ == self.remaining()[0].0,
    ;

    /// The current value. On an iterator that is not valid the bytes are
    /// arbitrary.
    fn value(&self) -> (v: &[u8])
        requires
            self.wf(),
        ensures
            self.remaining().len() > 0 ==> v@ == self.remaining()[0].1,
    ;

    /// Whether the iterator stands on an entry.
    fn is_valid(&self) -> (b: bool)
        requires
            self.wf(),
        ensures
            b == (self.remaining().len() > 0),
    ;

    /// Moves to the next entry. On an iterator that is not valid it does
    /// nothing. After a failure the iterator is well-formed, and nothing
    /// more is known of it.
    fn next(&mut self) -> (r: Result<(), Error>)
        requires
            old(self).wf(),
        ensures
            final(self).wf(),
            r is Ok ==> final(self).remaining() == advance(old(self).remaining()),
            Self::infallible() ==> r is Ok,
    ;

    /// The number of underlying iterators that are active.
    spec fn active_iterators(&self) -> nat;

    /// The number of underlying iterators that are active, as far as a
    /// `usize` counts.
    fn num_active_iterators(&self) -> (n: usize)
        requires
            self.wf(),
        ensures
            n == clip(self.active_iterators()),
    ;
}

/// `n` as a `usize`, or the largest `usize` where `n` is larger.
pub open spec fn clip(n: nat) -> usize {
    if n <= usize::MAX {
        n as usize
    } else {
        usize::MAX
    }
}

/// One end of a range of keys.
#[derive(Debug)]
pub enum Bound {
    /// The range reaches to this key, and holds it.
    Included(Vec<u8>),
    /// The range reaches to this key, and does not hold it.
    Excluded(Vec<u8>),
    /// The range has no end on this side.
    Unbounded,
}

impl Bound {
    /// Whether `k` lies within a range that has this bound as its upper end.
    pub open spec fn admits_below(&self, k: Seq<u8>) -> bool {
        match self {
            Bound::Included(b) => key_le(k, b@),
            Bound::Excluded(b) => key_lt(k, b@),
            Bound::Unbounded => true,
        }
    }

    /// Whether `k` lies within a range that has this bound as its lower end.
    pub open spec fn admits_above(&self, k: Seq<u8>) -> bool {
        match self {
            Bound::Included(b) => key_le(b@, k),
            Bound::Excluded(b) => key_lt(b@, k),
            Bound::Unbounded => true,
        }
    }

    /// Whether `key` lies within a range that has this bound as its upper
    /// end.
    pub fn holds_below(&self, key: &[u8]) -> (r: bool)
        ensures
            r == self.admits_below(key@),
    {
        match self {
            Bound::Included(b) => crate::key::key_less_eq(key, b.as_slice()),
            Bound::Excluded(b) => crate::key::key_less(key, b.as_slice()),
            Bound::Unbounded => true,
        }
    }

    /// A copy of the bound.
    pub fn duplicate(&self) -> (r: Bound)
        ensures
            forall|k: Seq<u8>| r.admits_below(k) == self.admits_below(k),
            forall|k: Seq<u8>| r.admits_above(k) == self.admits_above(k),
            r is Unbounded == self is Unbounded,
    {
        match self {
            Bound::Included(b) => Bound::Included(vstd::slice::slice_to_vec(b.as_slice())),
            Bound::Excluded(b) => Bound::Excluded(vstd::slice::slice_to_vec(b.as_slice())),
            Bound::Unbounded => Bound::Unbounded,
        }
    }
}

/// The entries at the front of `es` whose keys lie below the upper bound
/// `upper`. In a run these are all entries within the bound.
pub open spec fn bounded(es: Seq<Entry>, upper: Bound) -> Seq<Entry>
    decreases es.len(),
{
    if es.len() == 0 || !upper.admits_below(es[0].0) {
        Seq::empty()
    } else {
        seq![es[0]] + bounded(es.skip(1), upper)
    }
}

/// The number of entries at the front of `es` whose keys lie below the
/// lower bound `lower`. In a run this is the index of the first entry
/// within the bound.
pub open spec fn lower_rank(es: Seq<Entry>, lower: Bound) -> int
    decreases es.len(),
{
    if es.len() == 0 || lower.admits_above(es[0].0) {
        0
    } else {
        1 + lower_rank(es.skip(1), lower)
    }
}

/// What lies within an upper bound is the front of the run, and so a run.
pub proof fn lemma_bounded(es: Seq<Entry>, upper: Bound)
    requires
        is_run(es),
    ensures
        is_run(bounded(es, upper)),
        bounded(es, upper).len() <= es.len(),
        bounded(es, upper) == es.take(bounded(es, upper).len() as int),
    decreases es.len(),
{
    if es.len() > 0 && upper.admits_below(es[0].0) {
        lemma_run_skip(es, 1);
        lemma_bounded(es.skip(1), upper);
        let b = bounded(es, upper);
        assert(b =~= es.take(b.len() as int));
        crate::run::lemma_run_subrange(es, 0, b.len() as int);
    }
}

/// Without an upper bound the whole run is within the bound.
pub proof fn lemma_unbounded(es: Seq<Entry>, upper: Bound)
    requires
        upper is Unbounded,
    ensures
        bounded(es, upper) == es,
    decreases es.len(),
{
    if es.len() > 0 {
        lemma_unbounded(es.skip(1), upper);
        assert(seq![es[0]] + es.skip(1) =~= es);
    }
}

/// The index that parts the entries below a lower bound from the others is
/// the lower rank of the bound.
pub proof fn lemma_lower_rank_is(es: Seq<Entry>, lower: Bound, p: int)
    requires
        0 <= p <= es.len(),
        forall|i: int| 0 <= i < p ==> !lower.admits_above((#[trigger] es[i]).0),
        p < es.len() ==> lower.admits_above(es[p].0),
    ensures
        lower_rank(es, lower) == p,
    decreases es.len(),
{
    if p > 0 {
        assert(!lower.admits_above(es[0].0));
        let t = es.skip(1);
        assert forall|i: int| 0 <= i < p - 1 implies !lower.admits_above((#[trigger] t[i]).0) by {
            assert(!lower.admits_above(es[i + 1].0));
        }
        lemma_lower_rank_is(t, lower, p - 1);
    }
}

/// Within an upper bound a run holds what it held for the keys within the
/// bound, and nothing for the others.
pub proof fn lemma_lookup_bounded(es: Seq<Entry>, upper: Bound, k: Seq<u8>)
    requires
        is_run(es),
    ensures
        lookup(bounded(es, upper), k) == if upper.admits_below(k) {
            lookup(es, k)
        } else {
            None
        },
    decreases es.len(),
{
    if es.len() > 0 {
        let t = es.skip(1);
        lemma_run_skip(es, 1);
        if upper.admits_below(es[0].0) {
            lemma_bounded(es, upper);
            lemma_lookup_bounded(t, upper, k);
            assert(bounded(es, upper).skip(1) =~= bounded(t, upper));
            if k == es[0].0 {
            } else {
                assert(lookup(bounded(es, upper), k) == lookup(bounded(t, upper), k));
            }
        } else {
            // Every key of the run lies beyond the bound.
            if upper.admits_below(k) {
                match upper {
                    Bound::Included(b) => {
                        lemma_key_lt_total(es[0].0, b@);
                        if k != es[0].0 {
                            lemma_key_lt_total(k, es[0].0);
                            if key_lt(es[0].0, k) {
                                lemma_key_le_lt(es[0].0, k, b@);
                                if k != b@ {
                                    crate::key::lemma_key_lt_transitive(es[0].0, k, b@);
                                }
                            }
                        }
                    },
                    Bound::Excluded(b) => {
                        lemma_key_lt_total(k, es[0].0);
                        if key_lt(es[0].0, k) {
                            crate::key::lemma_key_lt_transitive(es[0].0, k, b@);
                        }
                    },
                    Bound::Unbounded => {},
                }
                assert(k != es[0].0);
                assert(key_lt(k, es[0].0));
                lemma_lookup_below(es, k);
            }
        }
    }
}

/// Moving on within an upper bound.
pub proof fn lemma_bounded_advance(es: Seq<Entry>, upper: Bound)
    ensures
        bounded(advance(es), upper).len() >= 0,
        bounded(es, upper).len() > 0 ==> advance(bounded(es, upper)) == bounded(advance(es), upper),
{
    if bounded(es, upper).len() > 0 {
        assert(advance(bounded(es, upper)) =~= bounded(advance(es), upper));
    }
}

/// A run without its first entry; the empty run stays empty.
pub open spec fn advance(es: Seq<Entry>) -> Seq<Entry> {
    if es.len() > 0 {
        es.skip(1)
    } else {
        es
    }
}

/// The overlay of two runs: the entries of both in key order, and where a
/// key occurs in both, the entry of `a`.
pub open spec fn merge2(a: Seq<Entry>, b: Seq<Entry>) -> Seq<Entry>
    decreases a.len() + b.len(),
{
    if a.len() == 0 {
        b
    } else if b.len() == 0 {
        a
    } else if key_lt(a[0].0, b[0].0) {
        seq![a[0]] + merge2(a.skip(1), b)
    } else if key_lt(b[0].0, a[0].0) {
        seq![b[0]] + merge2(a, b.skip(1))
    } else {
        seq![a[0]] + merge2(a.skip(1), b.skip(1))
    }
}

/// The overlay of any number of runs, an earlier run winning over a later.
pub open spec fn merge_all(runs: Seq<Seq<Entry>>) -> Seq<Entry>
    decreases runs.len(),
{
    if runs.len() == 0 {
        Seq::empty()
    } else {
        merge2(runs[0], merge_all(runs.skip(1)))
    }
}

/// The value of `k` in the first of `runs` that holds `k`.
pub open spec fn first_some(runs: Seq<Seq<Entry>>, k: Seq<u8>) -> Option<Seq<u8>>
    decreases runs.len(),
{
    if runs.len() == 0 {
        None
    } else {
        match lookup(runs[0], k) {
            Some(v) => Some(v),
            None => first_some(runs.skip(1), k),
        }
    }
}

/// Every one of `runs` is a run.
pub open spec fn all_runs(runs: Seq<Seq<Entry>>) -> bool {
    forall|i: int| 0 <= i < runs.len() ==> is_run(#[trigger] runs[i])
}

/// The overlay of two runs is a run that begins with the lesser of their
/// first keys, and holds for every key what `a` holds, or else what `b`
/// holds.
pub proof fn lemma_merge2(a: Seq<Entry>, b: Seq<Entry>)
    requires
        is_run(a),
        is_run(b),
    ensures
        is_run(merge2(a, b)),
        merge2(a, b).len() > 0 <==> a.len() > 0 || b.len() > 0,
        merge2(a, b).len() > 0 ==> (a.len() > 0 && merge2(a, b)[0].0 == a[0].0) || (b.len() > 0
            && merge2(a, b)[0].0 == b[0].0),
        forall|k: Seq<u8>|
            #[trigger] lookup(merge2(a, b), k) == match lookup(a, k) {
                Some(v) => Some(v),
                None => lookup(b, k),
            },
    decreases a.len() + b.len(),
{
    if a.len() > 0 && b.len() > 0 {
        let m = merge2(a, b);
        lemma_run_skip(a, 1);
        lemma_run_skip(b, 1);
        lemma_key_lt_total(a[0].0, b[0].0);
        if a.len() > 1 {
            assert(key_lt(a[0].0, a[1].0));
        }
        if b.len() > 1 {
            assert(key_lt(b[0].0, b[1].0));
        }
        assert(crate::run::entry_storable(a[0]));
        assert(crate::run::entry_storable(b[0]));
        if key_lt(a[0].0, b[0].0) {
            let rest = merge2(a.skip(1), b);
            lemma_merge2(a.skip(1), b);
            lemma_run_prepend(a[0], rest);
            assert forall|k: Seq<u8>|
                #[trigger] lookup(m, k) == match lookup(a, k) {
                    Some(v) => Some(v),
                    None => lookup(b, k),
                } by {
                assert(m.skip(1) =~= rest);
                if k != a[0].0 {
                    assert(lookup(m, k) == lookup(rest, k));
                }
            }
        } else if key_lt(b[0].0, a[0].0) {
            let rest = merge2(a, b.skip(1));
            lemma_merge2(a, b.skip(1));
            lemma_run_prepend(b[0], rest);
            lemma_key_lt_asymmetric(b[0].0, a[0].0);
            assert forall|k: Seq<u8>|
                #[trigger] lookup(m, k) == match lookup(a, k) {
                    Some(v) => Some(v),
                    None => lookup(b, k),
                } by {
                assert(m.skip(1) =~= rest);
                if k == b[0].0 {
                    lemma_lookup_below(a, k);
                } else {
                    assert(lookup(m, k) == lookup(rest, k));
                }
            }
        } else {
            let rest = merge2(a.skip(1), b.skip(1));
            lemma_merge2(a.skip(1), b.skip(1));
            lemma_run_prepend(a[0], rest);
            assert forall|k: Seq<u8>|
                #[trigger] lookup(m, k) == match lookup(a, k) {
                    Some(v) => Some(v),
                    None => lookup(b, k),
                } by {
                assert(m.skip(1) =~= rest);
                if k != a[0].0 {
                    assert(lookup(m, k) == lookup(rest, k));
                }
            }
        }
    }
}

/// The overlay of runs is a run that holds for every key what the first run
/// with that key holds.
pub proof fn lemma_merge_all(runs: Seq<Seq<Entry>>)
    requires
        all_runs(runs),
    ensures
        is_run(merge_all(runs)),
        forall|k: Seq<u8>| #[trigger] lookup(merge_all(runs), k) == first_some(runs, k),
    decreases runs.len(),
{
    if runs.len() > 0 {
        let rest = runs.skip(1);
        assert forall|i: int| 0 <= i < rest.len() implies is_run(#[trigger] rest[i]) by {
            assert(is_run(runs[i + 1]));
        }
        lemma_merge_all(rest);
        assert(is_run(runs[0]));
        lemma_merge2(runs[0], merge_all(rest));
        assert forall|k: Seq<u8>| #[trigger] lookup(merge_all(runs), k) == first_some(runs, k) by {
            assert(lookup(merge_all(rest), k) == first_some(rest, k));
        }
    }
}

/// A key that the first of `runs` with that key holds is held by one of the
/// runs, and by none before it.
pub proof fn lemma_first_some(runs: Seq<Seq<Entry>>, k: Seq<u8>)
    ensures
        first_some(runs, k) is Some ==> exists|i: int|
            0 <= i < runs.len() && #[trigger] lookup(runs[i], k) == first_some(runs, k) && forall|
                j: int,
            |
                0 <= j < i ==> #[trigger] lookup(runs[j], k) is None,
        first_some(runs, k) is None ==> forall|i: int|
            0 <= i < runs.len() ==> #[trigger] lookup(runs[i], k) is None,
    decreases runs.len(),
{
    if runs.len() > 0 {
        let rest = runs.skip(1);
        lemma_first_some(rest, k);
        if lookup(runs[0], k) is Some {
            assert(lookup(runs[0], k) == first_some(runs, k));
        } else {
            if first_some(rest, k) is Some {
                let i = choose|i: int|
                    0 <= i < rest.len() && #[trigger] lookup(rest[i], k) == first_some(rest, k)
                        && forall|j: int| 0 <= j < i ==> #[trigger] lookup(rest[j], k) is None;
                assert(lookup(runs[i + 1], k) == first_some(runs, k));
                assert forall|j: int| 0 <= j < i + 1 implies #[trigger] lookup(runs[j], k) is None by {
                    if j > 0 {
                        assert(lookup(rest[j - 1], k) is None);
                    }
                }
            } else {
                assert forall|i: int| 0 <= i < runs.len() implies #[trigger] lookup(
                    runs[i],
                    k,
                ) is None by {
                    if i > 0 {
                        assert(lookup(rest[i - 1], k) is None);
                    }
                }
            }
        }
    }
}

/// Whether `run` begins with the key `k`.
pub open spec fn begins_with(run: Seq<Entry>, k: Seq<u8>) -> bool {
    run.len() > 0 && run[0].0 == k
}

/// Each of `runs` without its first entry where it begins with `k`.
pub open spec fn advance_all(runs: Seq<Seq<Entry>>, k: Seq<u8>) -> Seq<Seq<Entry>> {
    Seq::new(
        runs.len(),
        |i: int|
            if begins_with(runs[i], k) {
                runs[i].skip(1)
            } else {
                runs[i]
            },
    )
}

/// Run `c` begins with the least key with which any of `runs` begins, and
/// is the first to do so.
pub open spec fn is_least(runs: Seq<Seq<Entry>>, c: int) -> bool {
    &&& 0 <= c < runs.len()
    &&& runs[c].len() > 0
    &&& forall|j: int|
        0 <= j < runs.len() && (#[trigger] runs[j]).len() > 0 ==> key_lt(runs[c][0].0, runs[j][0].0)
            || (runs[j][0].0 == runs[c][0].0 && c <= j)
}

/// None of `runs` holds an entry.
pub open spec fn all_empty(runs: Seq<Seq<Entry>>) -> bool {
    forall|j: int| 0 <= j < runs.len() ==> (#[trigger] runs[j]).len() == 0
}

/// The overlay of empty runs is empty.
pub proof fn lemma_merge_all_empty(runs: Seq<Seq<Entry>>)
    requires
        all_empty(runs),
    ensures
        merge_all(runs).len() == 0,
    decreases runs.len(),
{
    if runs.len() > 0 {
        let rest = runs.skip(1);
        assert forall|j: int| 0 <= j < rest.len() implies (#[trigger] rest[j]).len() == 0 by {
            assert(runs[j + 1].len() == 0);
        }
        lemma_merge_all_empty(rest);
        assert(runs[0].len() == 0);
    }
}

/// The overlay of runs begins with the entry of the first run that begins
/// with the least key: where several runs carry that key, the earliest
/// wins.
pub proof fn lemma_merge_all_head(runs: Seq<Seq<Entry>>, c: int)
    requires
        all_runs(runs),
        is_least(runs, c),
    ensures
        merge_all(runs).len() > 0,
        merge_all(runs)[0] == runs[c][0],
{
    let m = merge_all(runs);
    let kmin = runs[c][0].0;
    lemma_merge_all(runs);
    lemma_first_some(runs, kmin);
    assert(is_run(runs[c]));
    assert(lookup(runs[c], kmin) == Some(runs[c][0].1));
    assert forall|j: int| 0 <= j < c implies #[trigger] lookup(runs[j], kmin) is None by {
        assert(is_run(runs[j]));
        if runs[j].len() > 0 {
            assert(key_lt(kmin, runs[j][0].0));
        }
        lemma_lookup_below(runs[j], kmin);
    }
    assert(first_some(runs, kmin) is Some);
    let i = choose|i: int|
        0 <= i < runs.len() && #[trigger] lookup(runs[i], kmin) == first_some(runs, kmin) && forall|
            j: int,
        |
            0 <= j < i ==> #[trigger] lookup(runs[j], kmin) is None;
    assert(i == c) by {
        if i < c {
            assert(lookup(runs[i], kmin) is None);
        }
        if c < i {
            assert(lookup(runs[c], kmin) is None);
        }
    }
    assert(lookup(m, kmin) == Some(runs[c][0].1));
    lemma_first_key_least(m, kmin);
    if m[0].0 != kmin {
        assert(key_lt(m[0].0, kmin));
        assert(lookup(m, m[0].0) == Some(m[0].1));
        lemma_first_some(runs, m[0].0);
        let w = choose|w: int|
            0 <= w < runs.len() && #[trigger] lookup(runs[w], m[0].0) == first_some(runs, m[0].0)
                && forall|j: int| 0 <= j < w ==> #[trigger] lookup(runs[j], m[0].0) is None;
        assert(is_run(runs[w]));
        lemma_first_key_least(runs[w], m[0].0);
        assert(runs[w].len() > 0);
        lemma_key_le_lt(runs[w][0].0, m[0].0, kmin);
        lemma_key_lt_asymmetric(runs[w][0].0, kmin);
    }
    assert(lookup(m, kmin) == Some(m[0].1));
}

/// Runs that are moved past their least first key hold what they held, but
/// for that key.
pub proof fn lemma_first_some_advance(runs: Seq<Seq<Entry>>, kmin: Seq<u8>, k: Seq<u8>)
    requires
        all_runs(runs),
        forall|j: int|
            0 <= j < runs.len() && (#[trigger] runs[j]).len() > 0 ==> key_le(kmin, runs[j][0].0),
    ensures
        first_some(advance_all(runs, kmin), k) == if k == kmin {
            None
        } else {
            first_some(runs, k)
        },
    decreases runs.len(),
{
    let adv = advance_all(runs, kmin);
    if runs.len() > 0 {
        let rest = runs.skip(1);
        assert forall|i: int| 0 <= i < rest.len() implies is_run(#[trigger] rest[i]) by {
            assert(is_run(runs[i + 1]));
        }
        assert forall|j: int| 0 <= j < rest.len() && (#[trigger] rest[j]).len() > 0 implies key_le(
            kmin,
            rest[j][0].0,
        ) by {
            assert(runs[j + 1].len() > 0);
        }
        lemma_first_some_advance(rest, kmin, k);
        assert(adv.skip(1) =~= advance_all(rest, kmin));
        let r0 = runs[0];
        assert(is_run(r0));
        if begins_with(r0, kmin) {
            lemma_lookup_skip(r0, k);
        } else if k == kmin {
            if r0.len() > 0 {
                assert(key_le(kmin, r0[0].0));
            }
            lemma_lookup_below(r0, kmin);
        }
    }
}

/// Moving every run that carries the least first key past it moves the
/// overlay past its first entry: the key comes once, and the other runs
/// that carry it are moved past it silently.
pub proof fn lemma_merge_all_advance(runs: Seq<Seq<Entry>>, c: int)
    requires
        all_runs(runs),
        is_least(runs, c),
    ensures
        all_runs(advance_all(runs, runs[c][0].0)),
        merge_all(advance_all(runs, runs[c][0].0)) == advance(merge_all(runs)),
{
    let kmin = runs[c][0].0;
    let adv = advance_all(runs, kmin);
    let m = merge_all(runs);
    assert forall|i: int| 0 <= i < adv.len() implies is_run(#[trigger] adv[i]) by {
        assert(is_run(runs[i]));
        if begins_with(runs[i], kmin) {
            lemma_run_skip(runs[i], 1);
        }
    }
    lemma_merge_all(runs);
    lemma_merge_all(adv);
    lemma_merge_all_head(runs, c);
    lemma_run_skip(m, 1);
    assert forall|j: int| 0 <= j < runs.len() && (#[trigger] runs[j]).len() > 0 implies key_le(
        kmin,
        runs[j][0].0,
    ) by {}
    assert forall|k: Seq<u8>| lookup(merge_all(adv), k) == lookup(m.skip(1), k) by {
        lemma_first_some_advance(runs, kmin, k);
        lemma_lookup_skip(m, k);
        assert(lookup(merge_all(adv), k) == first_some(adv, k));
        assert(lookup(m, k) == first_some(runs, k));
    }
    crate::run::lemma_run_ext(merge_all(adv), m.skip(1));
}

/// What a reader sees of a value: nothing where the value is a tombstone.
pub open spec fn visible(v: Option<Seq<u8>>) -> Option<Seq<u8>> {
    match v {
        Some(x) => if x.len() > 0 {
            Some(x)
        } else {
            None
        },
        None => None,
    }
}

/// The entries of `es` that are no tombstones.
pub open spec fn live(es: Seq<Entry>) -> Seq<Entry>
    decreases es.len(),
{
    if es.len() == 0 {
        Seq::empty()
    } else if es[0].1.len() == 0 {
        live(es.skip(1))
    } else {
        seq![es[0]] + live(es.skip(1))
    }
}

/// Without its tombstones a run is a run, which holds for every key what a
/// reader sees of the run.
pub proof fn lemma_live(es: Seq<Entry>)
    requires
        is_run(es),
    ensures
        is_run(live(es)),
        live(es).len() <= es.len(),
        live(es).len() > 0 ==> key_le(es[0].0, live(es)[0].0),
        forall|i: int| 0 <= i < live(es).len() ==> (#[trigger] live(es)[i]).1.len() > 0,
        forall|k: Seq<u8>| #[trigger] lookup(live(es), k) == visible(lookup(es, k)),
    decreases es.len(),
{
    if es.len() > 0 {
        let t = es.skip(1);
        lemma_run_skip(es, 1);
        lemma_live(t);
        if t.len() > 0 {
            assert(key_lt(es[0].0, es[1].0));
        }
        if live(t).len() > 0 {
            lemma_key_le_lt(es[0].0, t[0].0, live(t)[0].0);
            if t[0].0 != live(t)[0].0 {
                crate::key::lemma_key_lt_transitive(es[0].0, t[0].0, live(t)[0].0);
            }
        }
        assert(crate::run::entry_storable(es[0]));
        if es[0].1.len() == 0 {
            assert forall|k: Seq<u8>| #[trigger] lookup(live(es), k) == visible(lookup(es, k)) by {
                if k == es[0].0 {
                    lemma_lookup_below(t, k);
                }
            }
        } else {
            let l = live(es);
            lemma_run_prepend(es[0], live(t));
            assert(l.skip(1) =~= live(t));
            assert forall|k: Seq<u8>| #[trigger] lookup(l, k) == visible(lookup(es, k)) by {
                if k != es[0].0 {
                    assert(lookup(l, k) == lookup(live(t), k));
                }
            }
        }
    }
}

/// The value of `k` in the first of `runs` from index `i` on is that of
/// run `i`, or else that of the first of the runs behind it.
pub proof fn lemma_first_some_step(runs: Seq<Seq<Entry>>, i: int, k: Seq<u8>)
    requires
        0 <= i < runs.len(),
    ensures
        first_some(runs.skip(i), k) == match lookup(runs[i], k) {
            Some(v) => Some(v),
            None => first_some(runs.skip(i + 1), k),
        },
{
    assert(runs.skip(i).skip(1) =~= runs.skip(i + 1));
}

/// The first of the runs `a` and then `b` that holds `k` is the first of
/// `a`, or else the first of `b`.
pub proof fn lemma_first_some_concat(a: Seq<Seq<Entry>>, b: Seq<Seq<Entry>>, k: Seq<u8>)
    ensures
        first_some(a + b, k) == match first_some(a, k) {
            Some(v) => Some(v),
            None => first_some(b, k),
        },
    decreases a.len(),
{
    if a.len() == 0 {
        assert(a + b =~= b);
    } else {
        lemma_first_some_concat(a.skip(1), b, k);
        assert((a + b).skip(1) =~= a.skip(1) + b);
    }
}

/// Each of `runs` from its first entry within the lower bound on.
pub open spec fn from_lower(runs: Seq<Seq<Entry>>, lower: Bound) -> Seq<Seq<Entry>> {
    Seq::new(runs.len(), |i: int| runs[i].skip(lower_rank(runs[i], lower)))
}

/// In a run, the entries below the lower rank of a bound lie outside the
/// bound, and the others within.
pub proof fn lemma_lower_rank_parts(es: Seq<Entry>, lower: Bound)
    requires
        crate::run::keys_ascending(es),
    ensures
        0 <= lower_rank(es, lower) <= es.len(),
        forall|i: int| 0 <= i < lower_rank(es, lower) ==> !lower.admits_above((#[trigger] es[i]).0),
        forall|i: int|
            lower_rank(es, lower) <= i < es.len() ==> lower.admits_above((#[trigger] es[i]).0),
    decreases es.len(),
{
    if es.len() > 0 {
        let t = es.skip(1);
        assert forall|a: int, b: int| 0 <= a < b < t.len() implies key_lt(
            #[trigger] t[a].0,
            #[trigger] t[b].0,
        ) by {
            assert(key_lt(es[a + 1].0, es[b + 1].0));
        }
        if lower.admits_above(es[0].0) {
            assert forall|i: int| 0 <= i < es.len() implies lower.admits_above(
                (#[trigger] es[i]).0,
            ) by {
                if i > 0 {
                    assert(key_lt(es[0].0, es[i].0));
                    match lower {
                        Bound::Included(b) => {
                            lemma_key_le_lt(b@, es[0].0, es[i].0);
                        },
                        Bound::Excluded(b) => {
                            crate::key::lemma_key_lt_transitive(b@, es[0].0, es[i].0);
                        },
                        Bound::Unbounded => {},
                    }
                }
            }
        } else {
            lemma_lower_rank_parts(t, lower);
            assert forall|i: int| 0 <= i < lower_rank(es, lower) implies !lower.admits_above(
                (#[trigger] es[i]).0,
            ) by {
                if i > 0 {
                    assert(!lower.admits_above(t[i - 1].0));
                }
            }
            assert forall|i: int| lower_rank(es, lower) <= i < es.len() implies lower.admits_above(
                (#[trigger] es[i]).0,
            ) by {
                assert(lower.admits_above(t[i - 1].0));
            }
        }
    }
}

/// From its first entry within a lower bound on, a run holds what it held
/// for the keys within the bound, and nothing for the others.
pub proof fn lemma_lookup_from_lower(es: Seq<Entry>, lower: Bound, k: Seq<u8>)
    requires
        is_run(es),
    ensures
        is_run(es.skip(lower_rank(es, lower))),
        lookup(es.skip(lower_rank(es, lower)), k) == if lower.admits_above(k) {
            lookup(es, k)
        } else {
            None
        },
{
    let p = lower_rank(es, lower);
    let t = es.skip(p);
    lemma_lower_rank_parts(es, lower);
    lemma_run_skip(es, p);
    crate::run::lemma_lookup_iff(es, k);
    crate::run::lemma_lookup_iff(t, k);
    match lookup(es, k) {
        Some(v) => {
            let i = choose|i: int| 0 <= i < es.len() && #[trigger] es[i] == (k, v);
            if lower.admits_above(k) {
                assert(i >= p);
                assert(t[i - p] == (k, v));
                crate::run::lemma_lookup_at(t, i - p);
            } else {
                if lookup(t, k) is Some {
                    let w = lookup(t, k).unwrap();
                    let j = choose|j: int| 0 <= j < t.len() && #[trigger] t[j] == (k, w);
                    assert(es[p + j] == (k, w));
                    assert(lower.admits_above(es[p + j].0));
                }
            }
        },
        None => {
            if lookup(t, k) is Some {
                let w = lookup(t, k).unwrap();
                let j = choose|j: int| 0 <= j < t.len() && #[trigger] t[j] == (k, w);
                assert(es[p + j] == (k, w));
            }
        },
    }
}

/// Runs taken from a lower bound on hold what they held for the keys
/// within the bound, and nothing for the others.
pub proof fn lemma_first_some_from_lower(runs: Seq<Seq<Entry>>, lower: Bound, k: Seq<u8>)
    requires
        all_runs(runs),
    ensures
        all_runs(from_lower(runs, lower)),
        first_some(from_lower(runs, lower), k) == if lower.admits_above(k) {
            first_some(runs, k)
        } else {
            None
        },
    decreases runs.len(),
{
    let cut = from_lower(runs, lower);
    assert forall|i: int| 0 <= i < cut.len() implies is_run(#[trigger] cut[i]) by {
        assert(is_run(runs[i]));
        lemma_lookup_from_lower(runs[i], lower, k);
    }
    if runs.len() > 0 {
        let rest = runs.skip(1);
        assert forall|i: int| 0 <= i < rest.len() implies is_run(#[trigger] rest[i]) by {
            assert(is_run(runs[i + 1]));
        }
        lemma_first_some_from_lower(rest, lower, k);
        assert(cut.skip(1) =~= from_lower(rest, lower));
        assert(is_run(runs[0]));
        lemma_lookup_from_lower(runs[0], lower, k);
    }
}

/// The tree of a scan: the overlay of the three groups of layers, each
/// taken from the lower bound on, is the overlay of all layers taken from
/// the lower bound on.
pub proof fn lemma_scan_tree(
    a: Seq<Seq<Entry>>,
    b: Seq<Seq<Entry>>,
    c: Seq<Seq<Entry>>,
    lower: Bound,
)
    requires
        all_runs(a),
        all_runs(b),
        all_runs(c),
    ensures
        all_runs(a + b + c),
        merge2(
            merge2(merge_all(from_lower(a, lower)), merge_all(from_lower(b, lower))),
            merge_all(from_lower(c, lower)),
        ) == merge_all(a + b + c).skip(lower_rank(merge_all(a + b + c), lower)),
{
    let layers = a + b + c;
    assert forall|i: int| 0 <= i < layers.len() implies is_run(#[trigger] layers[i]) by {
        if i < a.len() {
            assert(is_run(a[i]));
        } else if i < a.len() + b.len() {
            assert(is_run(b[i - a.len()]));
        } else {
            assert(is_run(c[i - a.len() - b.len()]));
        }
    }
    let m = merge_all(layers);
    let ma = merge_all(from_lower(a, lower));
    let mb = merge_all(from_lower(b, lower));
    let mc = merge_all(from_lower(c, lower));
    let lhs = merge2(merge2(ma, mb), mc);
    let rhs = m.skip(lower_rank(m, lower));
    lemma_merge_all(layers);
    assert forall|k: Seq<u8>| lookup(lhs, k) == lookup(rhs, k) by {
        lemma_first_some_from_lower(a, lower, k);
        lemma_first_some_from_lower(b, lower, k);
        lemma_first_some_from_lower(c, lower, k);
        lemma_merge_all(from_lower(a, lower));
        lemma_merge_all(from_lower(b, lower));
        lemma_merge_all(from_lower(c, lower));
        lemma_merge2(ma, mb);
        lemma_merge2(merge2(ma, mb), mc);
        lemma_first_some_concat(a + b, c, k);
        lemma_first_some_concat(a, b, k);
        lemma_lookup_from_lower(m, lower, k);
        assert(lookup(ma, k) == first_some(from_lower(a, lower), k));
        assert(lookup(mb, k) == first_some(from_lower(b, lower), k));
        assert(lookup(mc, k) == first_some(from_lower(c, lower), k));
        assert(lookup(m, k) == first_some(layers, k));
    }
    let k0 = Seq::<u8>::empty();
    lemma_first_some_from_lower(a, lower, k0);
    lemma_first_some_from_lower(b, lower, k0);
    lemma_first_some_from_lower(c, lower, k0);
    lemma_merge_all(from_lower(a, lower));
    lemma_merge_all(from_lower(b, lower));
    lemma_merge_all(from_lower(c, lower));
    lemma_merge2(ma, mb);
    lemma_merge2(merge2(ma, mb), mc);
    lemma_lookup_from_lower(m, lower, k0);
    crate::run::lemma_run_ext(lhs, rhs);
}

/// The entries of `es` that a compaction keeps: all, or all but the
/// tombstones.
pub open spec fn kept(es: Seq<Entry>, drop_tombstones: bool) -> Seq<Entry> {
    if drop_tombstones {
        live(es)
    } else {
        es
    }
}

/// The entries that are no tombstones, with one more entry at the end.
pub proof fn lemma_live_push(es: Seq<Entry>, e: Entry)
    ensures
        live(es.push(e)) == if e.1.len() == 0 {
            live(es)
        } else {
            live(es).push(e)
        },
    decreases es.len(),
{
    let all = es.push(e);
    if es.len() == 0 {
        assert(all.skip(1) =~= Seq::<Entry>::empty());
        assert(live(all.skip(1)) =~= Seq::<Entry>::empty());
        if e.1.len() > 0 {
            assert(live(all) =~= live(es).push(e));
        }
    } else {
        lemma_live_push(es.skip(1), e);
        assert(all.skip(1) =~= es.skip(1).push(e));
        if e.1.len() == 0 {
            assert(live(all) =~= live(es));
        } else {
            assert(live(all) =~= live(es).push(e));
        }
    }
}

/// The first of `runs` that holds a key holds what the runs joined hold
/// for it.
pub proof fn lemma_first_some_joined(runs: Seq<Seq<Entry>>, k: Seq<u8>)
    ensures
        first_some(runs, k) == lookup(crate::run::concat_runs(runs), k),
    decreases runs.len(),
{
    if runs.len() > 0 {
        crate::run::lemma_concat_front(runs);
        lemma_first_some_joined(runs.skip(1), k);
        lemma_lookup_joined(runs[0], crate::run::concat_runs(runs.skip(1)), k);
    }
}

/// What two sequences of entries joined hold for a key is what the first
/// holds, or else what the second holds.
pub proof fn lemma_lookup_joined(a: Seq<Entry>, b: Seq<Entry>, k: Seq<u8>)
    ensures
        lookup(a + b, k) == match lookup(a, k) {
            Some(v) => Some(v),
            None => lookup(b, k),
        },
    decreases a.len(),
{
    if a.len() == 0 {
        assert(a + b =~= b);
    } else {
        lemma_lookup_joined(a.skip(1), b, k);
        assert((a + b).skip(1) =~= a.skip(1) + b);
    }
}

/// A compaction that puts the run `x` in the place of the layers `mid`
/// changes nothing for a reader, where `x` holds for every key what the
/// first of `mid` holds, or, with empty layers behind, what a reader sees
/// of that.
pub proof fn lemma_compacted(
    p: Seq<Seq<Entry>>,
    mid: Seq<Seq<Entry>>,
    x: Seq<Entry>,
    s: Seq<Seq<Entry>>,
    k: Seq<u8>,
)
    requires
        lookup(x, k) == first_some(mid, k) || (lookup(x, k) == visible(first_some(mid, k))
            && all_empty(s)),
    ensures
        visible(first_some(p + seq![x] + s, k)) == visible(first_some(p + mid + s, k)),
{
    let one = seq![x];
    lemma_first_some_concat(p + one, s, k);
    lemma_first_some_concat(p, one, k);
    lemma_first_some_concat(p + mid, s, k);
    lemma_first_some_concat(p, mid, k);
    assert(one.skip(1) =~= Seq::<Seq<Entry>>::empty());
    assert(first_some(one.skip(1), k) is None);
    assert(first_some(one, k) == lookup(x, k));
    if all_empty(s) {
        lemma_none_in_empty(s, k);
    }
}

/// Empty runs hold no key.
pub proof fn lemma_none_in_empty(runs: Seq<Seq<Entry>>, k: Seq<u8>)
    requires
        all_empty(runs),
    ensures
        first_some(runs, k) is None,
    decreases runs.len(),
{
    if runs.len() > 0 {
        let rest = runs.skip(1);
        assert forall|j: int| 0 <= j < rest.len() implies (#[trigger] rest[j]).len() == 0 by {
            assert(runs[j + 1].len() == 0);
        }
        lemma_none_in_empty(rest, k);
        assert(runs[0].len() == 0);
    }
}

} // verus!
