//! The overlay of any number of iterators of one type.

use vstd::prelude::*;
use vstd::slice::slice_to_vec;
use crate::error::Error;
use crate::iterators::{
    advance_all, all_empty, all_runs, begins_with, is_least, lemma_merge_all,
    lemma_merge_all_advance, lemma_merge_all_empty, lemma_merge_all_head, merge_all,
    StorageIterator,
};
use crate::key::{key_equal, key_less, key_lt, lemma_key_lt_total, lemma_key_lt_transitive};
use crate::run::Entry;

verus! {

/// The number of `runs` that hold an entry.
pub open spec fn count_valid(runs: Seq<Seq<Entry>>) -> nat
    decreases runs.len(),
{
    if runs.len() == 0 {
        0
    } else {
        count_valid(runs.drop_last()) + if runs.last().len() > 0 {
            1nat
        } else {
            0nat
        }
    }
}

/// Merges iterators of one type. Where a key occurs in several of them, it
/// comes once, with the entry of the iterator with the smallest index.
pub struct MergeIterator<I: StorageIterator> {
    /// The iterators, the one that wins ties first.
    iters: Vec<I>,
    /// The index of the iterator that holds the current entry.
    current: Option<usize>,
}

impl<I: StorageIterator> MergeIterator<I> {
    /// What is left of each iterator.
    pub closed spec fn sources(&self) -> Seq<Seq<Entry>> {
        Seq::new(self.iters@.len(), |i: int| self.iters@[i].remaining())
    }

    /// Every iterator is well-formed.
    pub closed spec fn iters_wf(&self) -> bool {
        forall|i: int| 0 <= i < self.iters@.len() ==> (#[trigger] self.iters@[i]).wf()
    }

    /// `current` names the iterator that holds the least key, the first of
    /// them where there are several; it is `None` where no iterator holds
    /// an entry.
    pub closed spec fn current_is_least(&self) -> bool {
        match self.current {
            Some(c) => is_least(self.sources(), c as int),
            None => all_empty(self.sources()),
        }
    }

    /// What is left is the overlay of what is left of the iterators.
    pub proof fn lemma_parts(&self)
        requires
            self.wf(),
        ensures
            all_runs(self.sources()),
            self.remaining() == merge_all(self.sources()),
    {
        self.lemma_sources();
    }

    proof fn lemma_sources(&self)
        requires
            self.iters_wf(),
        ensures
            all_runs(self.sources()),
    {
        assert forall|i: int| 0 <= i < self.sources().len() implies crate::run::is_run(
            #[trigger] self.sources()[i],
        ) by {
            assert(self.iters@[i].wf());
            self.iters@[i].lemma_remaining();
        }
    }

    /// The index of the iterator that holds the least key, the first of
    /// them where there are several.
    fn find_least(&self) -> (r: Option<usize>)
        requires
            self.iters_wf(),
        ensures
            match r {
                Some(c) => is_least(self.sources(), c as int),
                None => all_empty(self.sources()),
            },
    {
        let ghost srcs = self.sources();
        let n = self.iters.len();
        let mut best: Option<usize> = None;
        let mut i: usize = 0;
        while i < n
            invariant
                self.iters_wf(),
                srcs == self.sources(),
                n == self.iters@.len(),
                i <= n,
                match best {
                    Some(c) => c < i && srcs[c as int].len() > 0 && forall|j: int|
                        0 <= j < i && (#[trigger] srcs[j]).len() > 0 ==> key_lt(
                            srcs[c as int][0].0,
                            srcs[j][0].0,
                        ) || (srcs[j][0].0 == srcs[c as int][0].0 && c <= j),
                    None => forall|j: int| 0 <= j < i ==> (#[trigger] srcs[j]).len() == 0,
                },
            decreases n - i,
        {
            assert(self.iters@[i as int].wf());
            assert(srcs[i as int] == self.iters@[i as int].remaining());
            if self.iters[i].is_valid() {
                match best {
                    None => {
                        best = Some(i);
                    },
                    Some(c) => {
                        assert(self.iters@[c as int].wf());
                        assert(srcs[c as int] == self.iters@[c as int].remaining());
                        if key_less(self.iters[i].key(), self.iters[c].key()) {
                            proof {
                                let ki = srcs[i as int][0].0;
                                let kc = srcs[c as int][0].0;
                                assert forall|j: int|
                                    0 <= j < i + 1 && (#[trigger] srcs[j]).len() > 0 implies key_lt(
                                    ki,
                                    srcs[j][0].0,
                                ) || (srcs[j][0].0 == ki && i <= j) by {
                                    if j < i {
                                        if srcs[j][0].0 != kc {
                                            lemma_key_lt_transitive(ki, kc, srcs[j][0].0);
                                        }
                                    }
                                }
                            }
                            best = Some(i);
                        } else {
                            proof {
                                lemma_key_lt_total(srcs[i as int][0].0, srcs[c as int][0].0);
                            }
                        }
                    },
                }
            }
            i += 1;
        }
        best
    }

    /// Creates the overlay of `iters`, an earlier iterator winning over a
    /// later one.
    pub fn create(iters: Vec<I>) -> (r: Self)
        requires
            forall|i: int| 0 <= i < iters@.len() ==> (#[trigger] iters@[i]).wf(),
        ensures
            r.wf(),
            r.sources() == Seq::new(iters@.len(), |i: int| iters@[i].remaining()),
            r.remaining() == merge_all(r.sources()),
    {
        let mut r = Self { iters, current: None };
        r.current = r.find_least();
        r
    }

    /// The number of iterators that hold an entry.
    fn count_active(&self) -> (n: usize)
        requires
            self.iters_wf(),
        ensures
            n == count_valid(self.sources()),
    {
        let ghost srcs = self.sources();
        let len = self.iters.len();
        let mut n: usize = 0;
        let mut i: usize = 0;
        assert(srcs.take(0) =~= Seq::<Seq<Entry>>::empty());
        while i < len
            invariant
                self.iters_wf(),
                srcs == self.sources(),
                len == self.iters@.len(),
                i <= len,
                n <= i,
                n == count_valid(srcs.take(i as int)),
            decreases len - i,
        {
            assert(self.iters@[i as int].wf());
            assert(srcs.take(i + 1).drop_last() =~= srcs.take(i as int));
            if self.iters[i].is_valid() {
                n += 1;
            }
            i += 1;
        }
        assert(srcs.take(len as int) =~= srcs);
        n
    }
}

impl<I: StorageIterator> StorageIterator for MergeIterator<I> {
    closed spec fn wf(&self) -> bool {
        self.iters_wf() && self.current_is_least()
    }

    /// The overlay of what is left of the iterators.
    open spec fn remaining(&self) -> Seq<Entry> {
        merge_all(self.sources())
    }

    open spec fn infallible() -> bool {
        I::infallible()
    }

    /// The number of iterators that hold an entry, and 1 where none does.
    open spec fn active_iterators(&self) -> nat {
        if count_valid(self.sources()) == 0 {
            1
        } else {
            count_valid(self.sources())
        }
    }

    proof fn lemma_remaining(&self) {
        self.lemma_sources();
        lemma_merge_all(self.sources());
    }

    fn key(&self) -> (k: &[u8]) {
        proof {
            self.lemma_sources();
        }
        match self.current {
            Some(c) => {
                proof {
                    lemma_merge_all_head(self.sources(), c as int);
                    assert(self.iters@[c as int].wf());
                }
                self.iters[c].key()
            },
            None => {
                proof {
                    lemma_merge_all_empty(self.sources());
                }
                let k: &[u8] = &[];
                k
            },
        }
    }

    fn value(&self) -> (v: &[u8]) {
        proof {
            self.lemma_sources();
        }
        match self.current {
            Some(c) => {
                proof {
                    lemma_merge_all_head(self.sources(), c as int);
                    assert(self.iters@[c as int].wf());
                }
                self.iters[c].value()
            },
            None => {
                proof {
                    lemma_merge_all_empty(self.sources());
                }
                let v: &[u8] = &[];
                v
            },
        }
    }

    fn is_valid(&self) -> (b: bool) {
        proof {
            self.lemma_sources();
            match self.current {
                Some(c) => {
                    lemma_merge_all_head(self.sources(), c as int);
                },
                None => {
                    lemma_merge_all_empty(self.sources());
                },
            }
        }
        self.current.is_some()
    }

    /// Moves every iterator that stands on the current key past it, and no
    /// other: the key comes once. On a merge that is not valid nothing is
    /// moved.
    fn next(&mut self) -> (r: Result<(), Error>)
        ensures
            old(self).remaining().len() == 0 ==> r is Ok && final(self).sources() == old(self).sources(),
            r is Ok && old(self).remaining().len() > 0 ==> final(self).sources() == advance_all(
                old(self).sources(),
                old(self).remaining()[0].0,
            ),
    {
        proof {
            self.lemma_sources();
        }
        let c = match self.current {
            Some(c) => c,
            None => {
                proof {
                    lemma_merge_all_empty(self.sources());
                }
                return Ok(());
            },
        };
        let ghost srcs0 = self.sources();
        assert(is_least(srcs0, c as int));
        let ghost kmin = srcs0[c as int][0].0;
        proof {
            lemma_merge_all_head(srcs0, c as int);
            lemma_merge_all_advance(srcs0, c as int);
            assert(self.iters@[c as int].wf());
        }
        let current_key = slice_to_vec(self.iters[c].key());
        let n = self.iters.len();
        let mut j: usize = 0;
        while j < n
            invariant
                self.iters_wf(),
                n == self.iters@.len(),
                n == srcs0.len(),
                c < n,
                j <= n,
                current_key@ == kmin,
                old(self).remaining().len() > 0,
                forall|i: int|
                    0 <= i < n ==> #[trigger] self.sources()[i] == if i < j && i != c && begins_with(
                        srcs0[i],
                        kmin,
                    ) {
                        srcs0[i].skip(1)
                    } else {
                        srcs0[i]
                    },
            decreases n - j,
        {
            if j != c {
                assert(self.iters@[j as int].wf());
                assert(self.sources()[j as int] == self.iters@[j as int].remaining());
                if self.iters[j].is_valid() && key_equal(
                    self.iters[j].key(),
                    current_key.as_slice(),
                ) {
                    let ghost before = self.iters@;
                    let ghost src_before = self.sources();
                    let r = self.iters[j].next();
                    proof {
                        assert forall|i: int| 0 <= i < n implies (#[trigger] self.iters@[i]).wf() by {
                            if i != j {
                                assert(self.iters@[i] == before[i]);
                            }
                        }
                    }
                    match r {
                        Ok(()) => {},
                        Err(e) => {
                            self.current = self.find_least();
                            return Err(e);
                        },
                    }
                    assert forall|i: int| 0 <= i < n implies #[trigger] self.sources()[i] == if i
                        < j + 1 && i != c && begins_with(srcs0[i], kmin) {
                        srcs0[i].skip(1)
                    } else {
                        srcs0[i]
                    } by {
                        assert(src_before[i] == before[i].remaining());
                        assert(self.sources()[i] == self.iters@[i].remaining());
                        if i != j {
                            assert(self.iters@[i] == before[i]);
                        }
                    }
                }
            }
            j += 1;
        }
        let ghost before = self.iters@;
        let ghost src_before = self.sources();
        assert(self.sources()[c as int] == srcs0[c as int]);
        assert(self.iters@[c as int].wf());
        let r = self.iters[c].next();
        proof {
            assert forall|i: int| 0 <= i < n implies (#[trigger] self.iters@[i]).wf() by {
                if i != c {
                    assert(self.iters@[i] == before[i]);
                }
            }
        }
        self.current = self.find_least();
        match r {
            Ok(()) => {
                proof {
                    assert forall|i: int| 0 <= i < n implies self.sources()[i] == advance_all(
                        srcs0,
                        kmin,
                    )[i] by {
                        assert(src_before[i] == before[i].remaining());
                        assert(self.sources()[i] == self.iters@[i].remaining());
                        if i != c {
                            assert(self.iters@[i] == before[i]);
                        }
                    }
                    assert(self.sources() =~= advance_all(srcs0, kmin));
                }
                Ok(())
            },
            Err(e) => Err(e),
        }
    }

    /// The number of iterators that hold an entry, and 1 where none does.
    fn num_active_iterators(&self) -> (n: usize) {
        let n = self.count_active();
        if n == 0 {
            1
        } else {
            n
        }
    }
}

} // verus!
