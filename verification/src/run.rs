//! Sorted runs: sequences of key-value pairs in ascending key order.
//!
//! Every layer of the tree (a block, a table, a frozen memtable, the output of
//! a merge) is modelled as a run. An empty value is a tombstone.

use vstd::prelude::*;
use crate::key::{
    key_le, key_lt, lemma_key_lt_asymmetric, lemma_key_lt_irreflexive, lemma_key_lt_total,
    lemma_key_lt_transitive,
};

verus! {

/// A key with its value.
pub type Entry = (Seq<u8>, Seq<u8>);

/// The keys of `es` ascend strictly: no key occurs twice.
pub open spec fn keys_ascending(es: Seq<Entry>) -> bool {
    forall|i: int, j: int| 0 <= i < j < es.len() ==> key_lt(#[trigger] es[i].0, #[trigger] es[j].0)
}

/// The entry can be written in the block format: its key is not empty, and
/// the lengths of its key and value fit a `u16`.
pub open spec fn entry_storable(e: Entry) -> bool {
    0 < e.0.len() <= u16::MAX && e.1.len() <= u16::MAX
}

/// Every entry of `es` can be written in the block format.
pub open spec fn entries_storable(es: Seq<Entry>) -> bool {
    forall|i: int| 0 <= i < es.len() ==> entry_storable(#[trigger] es[i])
}

/// A well-formed run: entries that can be stored, in strictly ascending key
/// order.
pub open spec fn is_run(es: Seq<Entry>) -> bool {
    keys_ascending(es) && entries_storable(es)
}

/// The number of entries at the front of `es` whose key comes before `k`.
/// In a run this is the index of the first entry with a key `>= k`.
pub open spec fn rank(es: Seq<Entry>, k: Seq<u8>) -> int
    decreases es.len(),
{
    if es.len() == 0 || !key_lt(es[0].0, k) {
        0
    } else {
        1 + rank(es.skip(1), k)
    }
}

/// The value that `es` holds for `k`, if `k` occurs in it.
pub open spec fn lookup(es: Seq<Entry>, k: Seq<u8>) -> Option<Seq<u8>>
    decreases es.len(),
{
    if es.len() == 0 {
        None
    } else if es[0].0 == k {
        Some(es[0].1)
    } else {
        lookup(es.skip(1), k)
    }
}

/// Whether `k` occurs as a key of `es`.
pub open spec fn has_key(es: Seq<Entry>, k: Seq<u8>) -> bool {
    exists|i: int| 0 <= i < es.len() && (#[trigger] es[i]).0 == k
}

/// A run with one more entry at its end, whose key comes after the last,
/// is a run.
pub proof fn lemma_run_push(es: Seq<Entry>, e: Entry)
    requires
        is_run(es),
        entry_storable(e),
        es.len() > 0 ==> key_lt(es.last().0, e.0),
    ensures
        is_run(es.push(e)),
{
    let r = es.push(e);
    assert forall|i: int, j: int| 0 <= i < j < r.len() implies key_lt(
        #[trigger] r[i].0,
        #[trigger] r[j].0,
    ) by {
        if j == es.len() {
            if i < es.len() - 1 {
                assert(key_lt(es[i].0, es[es.len() - 1].0));
                lemma_key_lt_transitive(es[i].0, es.last().0, e.0);
            }
        }
    }
}

/// Every part of a run is a run.
pub proof fn lemma_run_subrange(es: Seq<Entry>, from: int, to: int)
    requires
        is_run(es),
        0 <= from <= to <= es.len(),
    ensures
        is_run(es.subrange(from, to)),
{
    let r = es.subrange(from, to);
    assert forall|i: int, j: int| 0 <= i < j < r.len() implies key_lt(
        #[trigger] r[i].0,
        #[trigger] r[j].0,
    ) by {
        assert(key_lt(es[from + i].0, es[from + j].0));
    }
    assert forall|i: int| 0 <= i < r.len() implies entry_storable(#[trigger] r[i]) by {
        assert(entry_storable(es[from + i]));
    }
}

/// Two runs, every key of the first before every key of the second, make a
/// run when joined.
pub proof fn lemma_run_concat(a: Seq<Entry>, b: Seq<Entry>)
    requires
        is_run(a),
        is_run(b),
        a.len() > 0 && b.len() > 0 ==> key_lt(a.last().0, b[0].0),
    ensures
        is_run(a + b),
{
    let r = a + b;
    assert forall|i: int, j: int| 0 <= i < j < r.len() implies key_lt(
        #[trigger] r[i].0,
        #[trigger] r[j].0,
    ) by {
        if j < a.len() {
            assert(key_lt(a[i].0, a[j].0));
        } else if i >= a.len() {
            assert(key_lt(b[i - a.len()].0, b[j - a.len()].0));
        } else {
            let last = a.len() - 1;
            if i < last {
                assert(key_lt(a[i].0, a[last].0));
                lemma_key_lt_transitive(a[i].0, a.last().0, b[0].0);
            }
            if j > a.len() {
                assert(key_lt(b[0].0, b[j - a.len()].0));
                lemma_key_lt_transitive(a[i].0, b[0].0, b[j - a.len()].0);
            }
        }
    }
    assert forall|i: int| 0 <= i < r.len() implies entry_storable(#[trigger] r[i]) by {
        if i < a.len() {
            assert(entry_storable(a[i]));
        } else {
            assert(entry_storable(b[i - a.len()]));
        }
    }
}

/// The rank of a key lies within the run.
pub proof fn lemma_rank_bounds(es: Seq<Entry>, k: Seq<u8>)
    ensures
        0 <= rank(es, k) <= es.len(),
    decreases es.len(),
{
    if es.len() > 0 && key_lt(es[0].0, k) {
        lemma_rank_bounds(es.skip(1), k);
    }
}

/// In a run, the index that parts the keys before `k` from the others is the
/// rank of `k`.
pub proof fn lemma_rank_is(es: Seq<Entry>, k: Seq<u8>, p: int)
    requires
        0 <= p <= es.len(),
        forall|i: int| 0 <= i < p ==> key_lt((#[trigger] es[i]).0, k),
        p < es.len() ==> !key_lt(es[p].0, k),
    ensures
        rank(es, k) == p,
    decreases es.len(),
{
    if p > 0 {
        assert(key_lt(es[0].0, k));
        let t = es.skip(1);
        assert forall|i: int| 0 <= i < p - 1 implies key_lt((#[trigger] t[i]).0, k) by {
            assert(key_lt(es[i + 1].0, k));
        }
        lemma_rank_is(t, k, p - 1);
    }
}

/// In a run, the entries below the rank of `k` have keys before `k`, and the
/// others do not.
pub proof fn lemma_rank_parts(es: Seq<Entry>, k: Seq<u8>)
    requires
        keys_ascending(es),
    ensures
        0 <= rank(es, k) <= es.len(),
        forall|i: int| 0 <= i < rank(es, k) ==> key_lt((#[trigger] es[i]).0, k),
        forall|i: int| rank(es, k) <= i < es.len() ==> !key_lt((#[trigger] es[i]).0, k),
    decreases es.len(),
{
    lemma_rank_bounds(es, k);
    if es.len() > 0 {
        let t = es.skip(1);
        assert forall|i: int, j: int| 0 <= i < j < t.len() implies key_lt(
            #[trigger] t[i].0,
            #[trigger] t[j].0,
        ) by {
            assert(key_lt(es[i + 1].0, es[j + 1].0));
        }
        if key_lt(es[0].0, k) {
            lemma_rank_parts(t, k);
            assert forall|i: int| 0 <= i < rank(es, k) implies key_lt((#[trigger] es[i]).0, k) by {
                if i > 0 {
                    assert(key_lt(t[i - 1].0, k));
                }
            }
            assert forall|i: int| rank(es, k) <= i < es.len() implies !key_lt(
                (#[trigger] es[i]).0,
                k,
            ) by {
                assert(!key_lt(t[i - 1].0, k));
            }
        } else {
            assert forall|i: int| 0 <= i < es.len() implies !key_lt((#[trigger] es[i]).0, k) by {
                if i > 0 {
                    assert(key_lt(es[0].0, es[i].0));
                    if key_lt(es[i].0, k) {
                        lemma_key_lt_transitive(es[0].0, es[i].0, k);
                    }
                }
            }
        }
    }
}

/// In a run, the index whose left neighbour has a key before `k` and whose
/// own key does not come before `k` is the rank of `k`.
pub proof fn lemma_rank_by_neighbours(es: Seq<Entry>, k: Seq<u8>, p: int)
    requires
        keys_ascending(es),
        0 <= p <= es.len(),
        p > 0 ==> key_lt(es[p - 1].0, k),
        p < es.len() ==> !key_lt(es[p].0, k),
    ensures
        rank(es, k) == p,
{
    assert forall|i: int| 0 <= i < p implies key_lt((#[trigger] es[i]).0, k) by {
        if i < p - 1 {
            assert(key_lt(es[i].0, es[p - 1].0));
            lemma_key_lt_transitive(es[i].0, es[p - 1].0, k);
        }
    }
    lemma_rank_is(es, k, p);
}

/// The runs of `runs` joined in their order.
pub open spec fn concat_runs(runs: Seq<Seq<Entry>>) -> Seq<Entry>
    decreases runs.len(),
{
    if runs.len() == 0 {
        Seq::empty()
    } else {
        concat_runs(runs.drop_last()) + runs.last()
    }
}

/// Each of `runs` is a non-empty run, and each ends before the next begins.
pub open spec fn runs_ordered(runs: Seq<Seq<Entry>>) -> bool {
    &&& forall|i: int| 0 <= i < runs.len() ==> is_run(#[trigger] runs[i]) && runs[i].len() > 0
    &&& forall|i: int|
        0 <= i < runs.len() - 1 ==> key_lt((#[trigger] runs[i]).last().0, runs[i + 1][0].0)
}

/// The number of entries in the first `i` of `runs`.
pub open spec fn prefix_len(runs: Seq<Seq<Entry>>, i: int) -> int {
    concat_runs(runs.take(i)).len() as int
}

/// Joining with one more run at the end.
pub proof fn lemma_concat_push(runs: Seq<Seq<Entry>>, r: Seq<Entry>)
    ensures
        concat_runs(runs.push(r)) == concat_runs(runs) + r,
{
    assert(runs.push(r).drop_last() =~= runs);
}

/// The first `i + 1` runs hold what the first `i` hold and run `i`.
pub proof fn lemma_prefix_len_step(runs: Seq<Seq<Entry>>, i: int)
    requires
        0 <= i < runs.len(),
    ensures
        prefix_len(runs, i + 1) == prefix_len(runs, i) + runs[i].len(),
        concat_runs(runs.take(i + 1)) == concat_runs(runs.take(i)) + runs[i],
{
    assert(runs.take(i + 1).drop_last() =~= runs.take(i));
}

/// No run holds no entry; all runs hold all entries.
pub proof fn lemma_prefix_len_ends(runs: Seq<Seq<Entry>>)
    ensures
        prefix_len(runs, 0) == 0,
        prefix_len(runs, runs.len() as int) == concat_runs(runs).len(),
{
    assert(runs.take(runs.len() as int) =~= runs);
}

/// The number of entries grows with the number of runs.
pub proof fn lemma_prefix_len_monotone(runs: Seq<Seq<Entry>>, i: int, j: int)
    requires
        0 <= i <= j <= runs.len(),
    ensures
        prefix_len(runs, i) <= prefix_len(runs, j),
    decreases j - i,
{
    if i < j {
        lemma_prefix_len_monotone(runs, i, j - 1);
        lemma_prefix_len_step(runs, j - 1);
    }
}

/// Entry `j` of run `i` stands in the joined runs behind the entries of the
/// runs before it.
pub proof fn lemma_concat_index(runs: Seq<Seq<Entry>>, i: int, j: int)
    requires
        0 <= i < runs.len(),
        0 <= j < runs[i].len(),
    ensures
        0 <= prefix_len(runs, i) + j < concat_runs(runs).len(),
        concat_runs(runs)[prefix_len(runs, i) + j] == runs[i][j],
    decreases runs.len(),
{
    let n = runs.len() as int;
    let front = runs.drop_last();
    if i == n - 1 {
        assert(runs.take(i) =~= front);
    } else {
        lemma_concat_index(front, i, j);
        assert(front.take(i) =~= runs.take(i));
    }
}

/// Ordered runs with one more run behind them, which begins after the
/// last of them ends, are ordered.
pub proof fn lemma_runs_ordered_push(runs: Seq<Seq<Entry>>, r: Seq<Entry>)
    requires
        runs_ordered(runs),
        is_run(r),
        r.len() > 0,
        runs.len() > 0 ==> key_lt(runs.last().last().0, r[0].0),
    ensures
        runs_ordered(runs.push(r)),
{
    let all = runs.push(r);
    assert forall|i: int| 0 <= i < all.len() implies is_run(#[trigger] all[i]) && all[i].len()
        > 0 by {
        if i < runs.len() {
            assert(is_run(runs[i]) && runs[i].len() > 0);
        }
    }
    assert forall|i: int| 0 <= i < all.len() - 1 implies key_lt(
        (#[trigger] all[i]).last().0,
        all[i + 1][0].0,
    ) by {
        if i < runs.len() - 1 {
            assert(key_lt(runs[i].last().0, runs[i + 1][0].0));
        }
    }
}

/// One run joined is that run.
pub proof fn lemma_concat_one(run: Seq<Entry>)
    ensures
        concat_runs(seq![run]) == run,
{
    let runs = seq![run];
    assert(runs.drop_last() =~= Seq::<Seq<Entry>>::empty());
    assert(concat_runs(runs.drop_last()) =~= Seq::<Entry>::empty());
    assert(concat_runs(runs) =~= run);
}

/// The first run, then the others joined.
pub proof fn lemma_concat_front(runs: Seq<Seq<Entry>>)
    requires
        runs.len() > 0,
    ensures
        concat_runs(runs) == runs[0] + concat_runs(runs.skip(1)),
    decreases runs.len(),
{
    if runs.len() == 1 {
        assert(runs.drop_last() =~= Seq::<Seq<Entry>>::empty());
        assert(runs.skip(1) =~= Seq::<Seq<Entry>>::empty());
        assert(concat_runs(runs) =~= runs[0] + concat_runs(runs.skip(1)));
    } else {
        let front = runs.drop_last();
        lemma_concat_front(front);
        assert(front.skip(1) =~= runs.skip(1).drop_last());
        assert(concat_runs(runs) =~= runs[0] + concat_runs(runs.skip(1)));
    }
}

/// The entries from index `prefix_len(runs, i)` on are those of the runs
/// from `i` on.
pub proof fn lemma_concat_skip(runs: Seq<Seq<Entry>>, i: int)
    requires
        0 <= i <= runs.len(),
    ensures
        0 <= prefix_len(runs, i) <= concat_runs(runs).len(),
        concat_runs(runs).skip(prefix_len(runs, i)) == concat_runs(runs.skip(i)),
        concat_runs(runs) == concat_runs(runs.take(i)) + concat_runs(runs.skip(i)),
    decreases runs.len() - i,
{
    if i == runs.len() {
        lemma_prefix_len_ends(runs);
        assert(runs.skip(i) =~= Seq::<Seq<Entry>>::empty());
        assert(runs.take(i) =~= runs);
        assert(concat_runs(runs.skip(i)) =~= Seq::<Entry>::empty());
        assert(concat_runs(runs).skip(prefix_len(runs, i)) =~= concat_runs(runs.skip(i)));
        assert(concat_runs(runs) =~= concat_runs(runs.take(i)) + concat_runs(runs.skip(i)));
    } else {
        lemma_concat_skip(runs, i + 1);
        lemma_prefix_len_step(runs, i);
        lemma_concat_front(runs.skip(i));
        assert(runs.skip(i).skip(1) =~= runs.skip(i + 1));
        assert(runs.skip(i)[0] == runs[i]);
        let a = concat_runs(runs.take(i));
        let b = concat_runs(runs.skip(i + 1));
        assert(concat_runs(runs.take(i + 1)) == a + runs[i]);
        assert(concat_runs(runs.skip(i)) == runs[i] + b);
        assert(concat_runs(runs) == (a + runs[i]) + b);
        assert((a + runs[i]) + b =~= a + (runs[i] + b));
        assert(concat_runs(runs).skip(prefix_len(runs, i)) =~= concat_runs(runs.skip(i)));
    }
}

/// In ordered runs, the rank of a key is its rank in the last run that
/// begins at or before the key (or in the first run, where none does),
/// behind the entries of the runs before.
pub proof fn lemma_rank_in_runs(runs: Seq<Seq<Entry>>, idx: int, key: Seq<u8>)
    requires
        runs_ordered(runs),
        0 <= idx < runs.len(),
        idx == 0 || key_le(runs[idx][0].0, key),
        forall|j: int| idx < j < runs.len() ==> !key_le((#[trigger] runs[j])[0].0, key),
    ensures
        rank(concat_runs(runs), key) == prefix_len(runs, idx) + rank(runs[idx], key),
{
    let es = concat_runs(runs);
    let run = runs[idx];
    let r = rank(run, key);
    let p = prefix_len(runs, idx) + r;
    lemma_concat_is_run(runs);
    assert(is_run(runs[idx]));
    lemma_rank_parts(run, key);
    lemma_prefix_len_step(runs, idx);
    lemma_prefix_len_monotone(runs, idx + 1, runs.len() as int);
    lemma_prefix_len_monotone(runs, 0, idx);
    lemma_prefix_len_ends(runs);
    if p > 0 {
        if r > 0 {
            lemma_concat_index(runs, idx, r - 1);
            assert(key_lt(run[r - 1].0, key));
        } else {
            assert(idx > 0);
            let before = runs[idx - 1];
            assert(is_run(before) && before.len() > 0);
            assert(key_lt(runs[idx - 1].last().0, runs[idx - 1 + 1][0].0));
            lemma_prefix_len_step(runs, idx - 1);
            lemma_concat_index(runs, idx - 1, before.len() - 1);
            if run[0].0 != key {
                lemma_key_lt_transitive(before.last().0, run[0].0, key);
            }
        }
    }
    if p < es.len() {
        if r < run.len() {
            lemma_concat_index(runs, idx, r);
            assert(!key_lt(run[r].0, key));
        } else {
            assert(idx + 1 < runs.len());
            assert(is_run(runs[idx + 1]) && runs[idx + 1].len() > 0);
            lemma_concat_index(runs, idx + 1, 0);
            assert(!key_le(runs[idx + 1][0].0, key));
            lemma_key_lt_total(runs[idx + 1][0].0, key);
        }
    }
    lemma_rank_by_neighbours(es, key, p);
}

/// The first keys of ordered runs ascend.
pub proof fn lemma_runs_first_keys(runs: Seq<Seq<Entry>>, i: int, j: int)
    requires
        runs_ordered(runs),
        0 <= i < j < runs.len(),
    ensures
        key_lt(runs[i][0].0, runs[j][0].0),
    decreases j - i,
{
    assert(is_run(runs[i]) && runs[i].len() > 0);
    assert(is_run(runs[j]) && runs[j].len() > 0);
    assert(key_lt(runs[i].last().0, runs[i + 1][0].0));
    if runs[i].len() > 1 {
        assert(key_lt(runs[i][0].0, runs[i][runs[i].len() - 1].0));
        lemma_key_lt_transitive(runs[i][0].0, runs[i].last().0, runs[i + 1][0].0);
    }
    if i + 1 < j {
        lemma_runs_first_keys(runs, i + 1, j);
        lemma_key_lt_transitive(runs[i][0].0, runs[i + 1][0].0, runs[j][0].0);
    }
}

/// Every entry of the joined runs is an entry of one of the runs.
pub proof fn lemma_concat_member(runs: Seq<Seq<Entry>>, g: int)
    requires
        0 <= g < concat_runs(runs).len(),
    ensures
        exists|i: int, j: int|
            0 <= i < runs.len() && 0 <= j < runs[i].len() && concat_runs(runs)[g]
                == #[trigger] runs[i][j],
    decreases runs.len(),
{
    let n = runs.len() as int;
    let front = runs.drop_last();
    if g >= concat_runs(front).len() {
        let j = g - concat_runs(front).len();
        assert(concat_runs(runs)[g] == runs[n - 1][j]);
    } else {
        lemma_concat_member(front, g);
        let (i, j) = choose|i: int, j: int|
            0 <= i < front.len() && 0 <= j < front[i].len() && concat_runs(front)[g]
                == #[trigger] front[i][j];
        assert(concat_runs(runs)[g] == runs[i][j]);
    }
}

/// Ordered runs joined are a run.
pub proof fn lemma_concat_is_run(runs: Seq<Seq<Entry>>)
    requires
        runs_ordered(runs),
    ensures
        is_run(concat_runs(runs)),
        runs.len() > 0 ==> concat_runs(runs).len() > 0 && concat_runs(runs).last()
            == runs.last().last() && concat_runs(runs)[0] == runs[0][0],
    decreases runs.len(),
{
    if runs.len() > 0 {
        let front = runs.drop_last();
        assert forall|i: int| 0 <= i < front.len() implies is_run(#[trigger] front[i])
            && front[i].len() > 0 by {
            assert(is_run(runs[i]) && runs[i].len() > 0);
        }
        assert forall|i: int| 0 <= i < front.len() - 1 implies key_lt(
            (#[trigger] front[i]).last().0,
            front[i + 1][0].0,
        ) by {
            assert(key_lt(runs[i].last().0, runs[i + 1][0].0));
        }
        lemma_concat_is_run(front);
        assert(is_run(runs.last()) && runs.last().len() > 0) by {
            assert(is_run(runs[runs.len() - 1]));
        }
        if front.len() > 0 {
            assert(key_lt(runs[runs.len() - 2].last().0, runs[runs.len() - 2 + 1][0].0));
        }
        lemma_run_concat(concat_runs(front), runs.last());
    }
}

/// `lookup` finds the entry at index `i` of a run by its key.
pub proof fn lemma_lookup_at(es: Seq<Entry>, i: int)
    requires
        keys_ascending(es),
        0 <= i < es.len(),
    ensures
        lookup(es, es[i].0) == Some(es[i].1),
    decreases es.len(),
{
    if i > 0 {
        assert(key_lt(es[0].0, es[i].0));
        lemma_key_lt_asymmetric(es[0].0, es[i].0);
        let t = es.skip(1);
        assert forall|a: int, b: int| 0 <= a < b < t.len() implies key_lt(
            #[trigger] t[a].0,
            #[trigger] t[b].0,
        ) by {
            assert(key_lt(es[a + 1].0, es[b + 1].0));
        }
        lemma_lookup_at(t, i - 1);
    }
}

/// `lookup` answers for exactly the keys that occur.
pub proof fn lemma_lookup_has_key(es: Seq<Entry>, k: Seq<u8>)
    ensures
        lookup(es, k) is Some <==> has_key(es, k),
    decreases es.len(),
{
    if es.len() > 0 {
        if es[0].0 == k {
            assert(has_key(es, k));
        } else {
            let t = es.skip(1);
            lemma_lookup_has_key(t, k);
            if has_key(t, k) {
                let i = choose|i: int| 0 <= i < t.len() && (#[trigger] t[i]).0 == k;
                assert(es[i + 1].0 == k);
            }
            if has_key(es, k) {
                let i = choose|i: int| 0 <= i < es.len() && (#[trigger] es[i]).0 == k;
                assert(t[i - 1].0 == k);
            }
        }
    }
}

/// A run without its first entries is a run.
pub proof fn lemma_run_skip(es: Seq<Entry>, n: int)
    requires
        is_run(es),
        0 <= n <= es.len(),
    ensures
        is_run(es.skip(n)),
{
    lemma_run_subrange(es, n, es.len() as int);
}

/// A run with one more entry at its front, whose key comes before the
/// first, is a run.
pub proof fn lemma_run_prepend(e: Entry, es: Seq<Entry>)
    requires
        is_run(es),
        entry_storable(e),
        es.len() > 0 ==> key_lt(e.0, es[0].0),
    ensures
        is_run(seq![e] + es),
{
    lemma_run_concat(seq![e], es);
}

/// A key that comes before the first key of a run does not occur in it.
pub proof fn lemma_lookup_below(es: Seq<Entry>, k: Seq<u8>)
    requires
        keys_ascending(es),
        es.len() > 0 ==> key_lt(k, es[0].0),
    ensures
        lookup(es, k) is None,
    decreases es.len(),
{
    if es.len() > 0 {
        lemma_key_lt_asymmetric(k, es[0].0);
        let t = es.skip(1);
        assert forall|a: int, b: int| 0 <= a < b < t.len() implies key_lt(
            #[trigger] t[a].0,
            #[trigger] t[b].0,
        ) by {
            assert(key_lt(es[a + 1].0, es[b + 1].0));
        }
        if t.len() > 0 {
            assert(key_lt(es[0].0, es[1].0));
            lemma_key_lt_transitive(k, es[0].0, t[0].0);
        }
        lemma_lookup_below(t, k);
    }
}

/// Without its first entry a run holds what it held, but for the first key.
pub proof fn lemma_lookup_skip(es: Seq<Entry>, k: Seq<u8>)
    requires
        keys_ascending(es),
        es.len() > 0,
    ensures
        lookup(es.skip(1), k) == if k == es[0].0 {
            None
        } else {
            lookup(es, k)
        },
{
    if k == es[0].0 {
        let t = es.skip(1);
        assert forall|a: int, b: int| 0 <= a < b < t.len() implies key_lt(
            #[trigger] t[a].0,
            #[trigger] t[b].0,
        ) by {
            assert(key_lt(es[a + 1].0, es[b + 1].0));
        }
        if t.len() > 0 {
            assert(key_lt(es[0].0, es[1].0));
        }
        lemma_lookup_below(t, k);
    }
}

/// Two runs that hold the same value for every key are the same run.
pub proof fn lemma_run_ext(a: Seq<Entry>, b: Seq<Entry>)
    requires
        keys_ascending(a),
        keys_ascending(b),
        forall|k: Seq<u8>| lookup(a, k) == lookup(b, k),
    ensures
        a == b,
    decreases a.len(),
{
    if a.len() == 0 {
        if b.len() > 0 {
            assert(lookup(b, b[0].0) is Some);
            assert(lookup(a, b[0].0) is None);
        }
        assert(a =~= b);
    } else {
        assert(lookup(a, a[0].0) == Some(a[0].1));
        assert(lookup(b, a[0].0) is Some);
        assert(b.len() > 0);
        assert(lookup(b, b[0].0) == Some(b[0].1));
        lemma_key_lt_total(a[0].0, b[0].0);
        if key_lt(a[0].0, b[0].0) {
            lemma_lookup_below(b, a[0].0);
        }
        if key_lt(b[0].0, a[0].0) {
            lemma_lookup_below(a, b[0].0);
        }
        assert(a[0].0 == b[0].0);
        assert(a[0] == b[0]);
        let ta = a.skip(1);
        let tb = b.skip(1);
        assert forall|x: int, y: int| 0 <= x < y < ta.len() implies key_lt(
            #[trigger] ta[x].0,
            #[trigger] ta[y].0,
        ) by {
            assert(key_lt(a[x + 1].0, a[y + 1].0));
        }
        assert forall|x: int, y: int| 0 <= x < y < tb.len() implies key_lt(
            #[trigger] tb[x].0,
            #[trigger] tb[y].0,
        ) by {
            assert(key_lt(b[x + 1].0, b[y + 1].0));
        }
        assert forall|k: Seq<u8>| lookup(ta, k) == lookup(tb, k) by {
            lemma_lookup_skip(a, k);
            lemma_lookup_skip(b, k);
        }
        lemma_run_ext(ta, tb);
        assert(a =~= seq![a[0]] + ta);
        assert(b =~= seq![b[0]] + tb);
    }
}

/// The first key of a run comes before or equals every key that occurs in
/// it.
pub proof fn lemma_first_key_least(es: Seq<Entry>, k: Seq<u8>)
    requires
        keys_ascending(es),
        lookup(es, k) is Some,
    ensures
        es.len() > 0,
        key_le(es[0].0, k),
{
    lemma_lookup_has_key(es, k);
    let i = choose|i: int| 0 <= i < es.len() && (#[trigger] es[i]).0 == k;
    if i > 0 {
        assert(key_lt(es[0].0, es[i].0));
    }
}

/// What `lookup` finds for a key is the value of the one entry with that
/// key.
pub proof fn lemma_lookup_iff(es: Seq<Entry>, k: Seq<u8>)
    requires
        keys_ascending(es),
    ensures
        match lookup(es, k) {
            Some(v) => exists|i: int| 0 <= i < es.len() && #[trigger] es[i] == (k, v),
            None => forall|i: int| 0 <= i < es.len() ==> (#[trigger] es[i]).0 != k,
        },
{
    lemma_lookup_has_key(es, k);
    if lookup(es, k) is Some {
        let i = choose|i: int| 0 <= i < es.len() && (#[trigger] es[i]).0 == k;
        lemma_lookup_at(es, i);
        assert(es[i] == (k, lookup(es, k).unwrap()));
    }
}

/// In a run, the value of a key is that of the entry at the rank of the
/// key, where that entry has the key.
pub proof fn lemma_lookup_rank(es: Seq<Entry>, k: Seq<u8>)
    requires
        keys_ascending(es),
    ensures
        0 <= rank(es, k) <= es.len(),
        lookup(es, k) == if rank(es, k) < es.len() && es[rank(es, k)].0 == k {
            Some(es[rank(es, k)].1)
        } else {
            None
        },
{
    let r = rank(es, k);
    lemma_rank_parts(es, k);
    if r < es.len() && es[r].0 == k {
        lemma_lookup_at(es, r);
    } else {
        lemma_lookup_has_key(es, k);
        lemma_key_lt_irreflexive(k);
        assert forall|i: int| 0 <= i < es.len() implies (#[trigger] es[i]).0 != k by {
            if i > r {
                lemma_key_lt_total(es[r].0, k);
                assert(key_lt(es[r].0, es[i].0));
                if es[i].0 == k {
                    lemma_key_lt_asymmetric(k, es[r].0);
                }
            }
        }
    }
}

/// `es` with the value `v` for the key `k`: in place of the entry with that
/// key, or as a new entry at the rank of the key.
pub open spec fn upsert(es: Seq<Entry>, k: Seq<u8>, v: Seq<u8>) -> Seq<Entry> {
    let r = rank(es, k);
    if r < es.len() && es[r].0 == k {
        es.update(r, (k, v))
    } else {
        es.insert(r, (k, v))
    }
}

/// After `upsert` the run holds the new value for the key, and for every
/// other key what it held.
pub proof fn lemma_upsert(es: Seq<Entry>, k: Seq<u8>, v: Seq<u8>)
    requires
        is_run(es),
        entry_storable((k, v)),
    ensures
        is_run(upsert(es, k, v)),
        forall|q: Seq<u8>|
            #[trigger] lookup(upsert(es, k, v), q) == if q == k {
                Some(v)
            } else {
                lookup(es, q)
            },
{
    let r = rank(es, k);
    let out = upsert(es, k, v);
    lemma_rank_parts(es, k);
    lemma_key_lt_irreflexive(k);
    let replaced = r < es.len() && es[r].0 == k;
    // Where each entry of `out` comes from, and where each entry of `es` goes.
    let from = |i: int| if replaced || i < r { i } else { i - 1 };
    let to = |i: int| if replaced || i < r { i } else { i + 1 };
    assert forall|i: int| 0 <= i < out.len() && i != r implies out[i] == es[from(i)] by {}
    assert forall|i: int| 0 <= i < es.len() && !(replaced && i == r) implies es[i] == out[to(i)] by {}
    if !replaced && r < es.len() {
        lemma_key_lt_total(es[r].0, k);
    }
    assert forall|i: int, j: int| 0 <= i < j < out.len() implies key_lt(
        #[trigger] out[i].0,
        #[trigger] out[j].0,
    ) by {
        if i == r {
            let s = from(j);
            assert(out[j] == es[s]);
            if replaced {
                assert(key_lt(es[r].0, es[s].0));
            } else if s > r {
                assert(key_lt(es[r].0, es[s].0));
                lemma_key_lt_transitive(k, es[r].0, es[s].0);
            }
        } else if j == r {
            assert(out[i] == es[from(i)]);
            assert(key_lt(es[i].0, k));
        } else {
            assert(out[i] == es[from(i)]);
            assert(out[j] == es[from(j)]);
            assert(key_lt(es[from(i)].0, es[from(j)].0));
        }
    }
    assert forall|i: int| 0 <= i < out.len() implies entry_storable(#[trigger] out[i]) by {
        if i != r {
            assert(out[i] == es[from(i)]);
            assert(entry_storable(es[from(i)]));
        }
    }
    assert forall|q: Seq<u8>|
        #[trigger] lookup(out, q) == if q == k {
            Some(v)
        } else {
            lookup(es, q)
        } by {
        if q == k {
            lemma_lookup_at(out, r);
        } else {
            lemma_lookup_iff(es, q);
            lemma_lookup_iff(out, q);
            match lookup(es, q) {
                Some(w) => {
                    let i = choose|i: int| 0 <= i < es.len() && #[trigger] es[i] == (q, w);
                    assert(es[i] == out[to(i)]);
                    lemma_lookup_at(out, to(i));
                },
                None => {
                    if lookup(out, q) is Some {
                        let w = lookup(out, q).unwrap();
                        let i = choose|i: int| 0 <= i < out.len() && #[trigger] out[i] == (q, w);
                        assert(out[i] == es[from(i)]);
                        assert(es[from(i)].0 != q);
                    }
                },
            }
        }
    }
}

/// Runs joined are the first of them joined, then the others joined.
pub proof fn lemma_concat_add(x: Seq<Seq<Entry>>, y: Seq<Seq<Entry>>)
    ensures
        concat_runs(x + y) == concat_runs(x) + concat_runs(y),
    decreases y.len(),
{
    if y.len() == 0 {
        assert(x + y =~= x);
        assert(concat_runs(x + y) =~= concat_runs(x) + concat_runs(y));
    } else {
        lemma_concat_add(x, y.drop_last());
        assert((x + y).drop_last() =~= x + y.drop_last());
        assert((x + y).last() == y.last());
        assert(concat_runs(x + y) =~= concat_runs(x) + concat_runs(y));
    }
}

/// A key occurs in at most one of two parts of a run.
pub proof fn lemma_parts_disjoint(a: Seq<Entry>, b: Seq<Entry>, k: Seq<u8>)
    requires
        keys_ascending(a + b),
    ensures
        !(lookup(a, k) is Some && lookup(b, k) is Some),
{
    lemma_lookup_has_key(a, k);
    lemma_lookup_has_key(b, k);
    if lookup(a, k) is Some && lookup(b, k) is Some {
        let i = choose|i: int| 0 <= i < a.len() && (#[trigger] a[i]).0 == k;
        let j = choose|j: int| 0 <= j < b.len() && (#[trigger] b[j]).0 == k;
        let all = a + b;
        assert(all[i] == a[i]);
        assert(all[a.len() + j] == b[j]);
        assert(key_lt(all[i].0, all[a.len() + j].0));
        lemma_key_lt_irreflexive(k);
    }
}

/// Every key of a run lies between its first key and its last.
pub proof fn lemma_key_range(es: Seq<Entry>, k: Seq<u8>)
    requires
        keys_ascending(es),
        lookup(es, k) is Some,
    ensures
        es.len() > 0,
        key_le(es[0].0, k),
        key_le(k, es.last().0),
{
    lemma_lookup_has_key(es, k);
    let i = choose|i: int| 0 <= i < es.len() && (#[trigger] es[i]).0 == k;
    if i > 0 {
        assert(key_lt(es[0].0, es[i].0));
    }
    if i < es.len() - 1 {
        assert(key_lt(es[i].0, es[es.len() - 1].0));
    }
}

/// A part of ordered runs is ordered.
pub proof fn lemma_ordered_subrange(runs: Seq<Seq<Entry>>, x: int, y: int)
    requires
        runs_ordered(runs),
        0 <= x <= y <= runs.len(),
    ensures
        runs_ordered(runs.subrange(x, y)),
{
    let part = runs.subrange(x, y);
    assert forall|i: int| 0 <= i < part.len() implies is_run(#[trigger] part[i]) && part[i].len()
        > 0 by {
        assert(is_run(runs[x + i]) && runs[x + i].len() > 0);
    }
    assert forall|i: int| 0 <= i < part.len() - 1 implies key_lt(
        (#[trigger] part[i]).last().0,
        part[i + 1][0].0,
    ) by {
        assert(key_lt(runs[x + i].last().0, runs[x + i + 1][0].0));
    }
}

/// Ordered runs, followed by ordered runs that begin after the first end,
/// are ordered.
pub proof fn lemma_ordered_join(a: Seq<Seq<Entry>>, b: Seq<Seq<Entry>>)
    requires
        runs_ordered(a),
        runs_ordered(b),
        a.len() > 0 && b.len() > 0 ==> key_lt(a.last().last().0, b[0][0].0),
    ensures
        runs_ordered(a + b),
{
    let all = a + b;
    assert forall|i: int| 0 <= i < all.len() implies is_run(#[trigger] all[i]) && all[i].len()
        > 0 by {
        if i < a.len() {
            assert(is_run(a[i]) && a[i].len() > 0);
        } else {
            assert(is_run(b[i - a.len()]) && b[i - a.len()].len() > 0);
        }
    }
    assert forall|i: int| 0 <= i < all.len() - 1 implies key_lt(
        (#[trigger] all[i]).last().0,
        all[i + 1][0].0,
    ) by {
        if i < a.len() - 1 {
            assert(key_lt(a[i].last().0, a[i + 1][0].0));
        } else if i >= a.len() {
            assert(key_lt(b[i - a.len()].last().0, b[i - a.len() + 1][0].0));
        } else {
            assert(all[i] == a.last());
            assert(all[i + 1] == b[0]);
        }
    }
}

/// The last key of one of ordered runs comes before the first key of every
/// later one.
pub proof fn lemma_runs_apart(runs: Seq<Seq<Entry>>, i: int, j: int)
    requires
        runs_ordered(runs),
        0 <= i < j < runs.len(),
    ensures
        key_lt(runs[i].last().0, runs[j][0].0),
    decreases j - i,
{
    assert(key_lt(runs[i].last().0, runs[i + 1][0].0));
    if i + 1 < j {
        lemma_runs_apart(runs, i + 1, j);
        let mid = runs[i + 1];
        assert(is_run(mid) && mid.len() > 0);
        if mid.len() > 1 {
            assert(key_lt(mid[0].0, mid[mid.len() - 1].0));
            lemma_key_lt_transitive(runs[i].last().0, mid[0].0, mid.last().0);
        }
        lemma_key_lt_transitive(runs[i].last().0, mid.last().0, runs[j][0].0);
    }
}

} // verus!
