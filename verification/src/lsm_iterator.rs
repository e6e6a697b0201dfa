//! The iterator that a scan returns, and the wrapper that makes an
//! iterator safe to use after it failed.

use vstd::prelude::*;
use crate::error::Error;
use crate::iterators::concat_iterator::SstConcatIterator;
use crate::iterators::merge_iterator::MergeIterator;
use crate::iterators::two_merge_iterator::TwoMergeIterator;
use crate::iterators::{
    advance, bounded, lemma_bounded, lemma_bounded_advance, lemma_live, live, Bound,
    StorageIterator,
};
use crate::mem_table::MemTableIterator;
use crate::run::Entry;
use crate::table::iterator::SsTableIterator;

verus! {

/// The tree of iterators that reads the whole store: the memtables over
/// the level-0 tables over the levels. Memtables and level-0 tables may
/// overlap and are merged; each level is a concatenation of tables that do
/// not overlap.
pub type LsmIteratorInner = TwoMergeIterator<
    TwoMergeIterator<MergeIterator<MemTableIterator>, MergeIterator<SsTableIterator>>,
    MergeIterator<SstConcatIterator>,
>;

/// The iterator of a scan: it walks the entries of the store up to an upper
/// bound, and passes over tombstones.
pub struct LsmIterator {
    inner: LsmIteratorInner,
    end_bound: Bound,
    is_valid: bool,
}

impl LsmIterator {
    /// What is left of the underlying iterator.
    pub closed spec fn source(&self) -> Seq<Entry> {
        self.inner.remaining()
    }

    /// The upper bound of the scan.
    pub closed spec fn bound(&self) -> Bound {
        self.end_bound
    }

    /// The underlying iterator is well-formed, and the flag says whether it
    /// stands on an entry within the bound.
    pub closed spec fn tracks(&self) -> bool {
        &&& self.inner.wf()
        &&& self.is_valid == (bounded(self.inner.remaining(), self.end_bound).len() > 0)
    }

    /// What is left is what a reader sees of the underlying entries within
    /// the bound.
    pub proof fn lemma_parts(&self)
        requires
            self.wf(),
        ensures
            self.remaining() == live(bounded(self.source(), self.bound())),
    {
    }

    /// Creates the iterator of a scan from the tree `iter` and the upper
    /// bound `end_bound`, at the first entry that is no tombstone.
    pub fn new(iter: LsmIteratorInner, end_bound: Bound) -> (r: Result<Self, Error>)
        requires
            iter.wf(),
        ensures
            r is Ok,
            r matches Ok(it) ==> it.wf() && it.bound() == end_bound && it.remaining() == live(
                bounded(iter.remaining(), end_bound),
            ),
    {
        let valid = iter.is_valid() && end_bound.holds_below(iter.key());
        let mut it = Self { inner: iter, end_bound, is_valid: valid };
        match it.move_to_non_delete() {
            Ok(()) => Ok(it),
            Err(e) => Err(e),
        }
    }

    /// Moves the underlying iterator on by one entry.
    fn next_inner(&mut self) -> (r: Result<(), Error>)
        requires
            old(self).inner.wf(),
        ensures
            final(self).inner.wf(),
            final(self).end_bound == old(self).end_bound,
            r is Ok,
            final(self).tracks(),
            final(self).inner.remaining() == advance(old(self).inner.remaining()),
    {
        match self.inner.next() {
            Ok(()) => {},
            Err(e) => {
                return Err(e);
            },
        }
        self.is_valid = self.inner.is_valid() && self.end_bound.holds_below(self.inner.key());
        Ok(())
    }

    /// Passes over tombstones.
    fn move_to_non_delete(&mut self) -> (r: Result<(), Error>)
        requires
            old(self).tracks(),
        ensures
            final(self).end_bound == old(self).end_bound,
            r is Ok,
            final(self).wf(),
            final(self).remaining() == live(
                bounded(old(self).inner.remaining(), old(self).end_bound),
            ),
    {
        let ghost goal = live(bounded(self.inner.remaining(), self.end_bound));
        while self.is_valid && self.inner.value().len() == 0
            invariant
                self.tracks(),
                self.end_bound == old(self).end_bound,
                live(bounded(self.inner.remaining(), self.end_bound)) == goal,
            decreases self.inner.remaining().len(),
        {
            proof {
                lemma_bounded_advance(self.inner.remaining(), self.end_bound);
            }
            match self.next_inner() {
                Ok(()) => {},
                Err(e) => {
                    return Err(e);
                },
            }
        }
        Ok(())
    }
}

impl StorageIterator for LsmIterator {
    closed spec fn wf(&self) -> bool {
        &&& self.tracks()
        &&& self.is_valid ==> self.inner.remaining()[0].1.len() > 0
    }

    closed spec fn remaining(&self) -> Seq<Entry> {
        live(bounded(self.inner.remaining(), self.end_bound))
    }

    open spec fn infallible() -> bool {
        true
    }

    closed spec fn active_iterators(&self) -> nat {
        self.inner.active_iterators()
    }

    proof fn lemma_remaining(&self) {
        self.inner.lemma_remaining();
        lemma_bounded(self.inner.remaining(), self.end_bound);
        lemma_live(bounded(self.inner.remaining(), self.end_bound));
    }

    fn is_valid(&self) -> (b: bool) {
        proof {
            self.inner.lemma_remaining();
            lemma_bounded(self.inner.remaining(), self.end_bound);
            lemma_live(bounded(self.inner.remaining(), self.end_bound));
        }
        self.is_valid
    }

    fn key(&self) -> (k: &[u8]) {
        self.inner.key()
    }

    fn value(&self) -> (v: &[u8]) {
        self.inner.value()
    }

    fn next(&mut self) -> (r: Result<(), Error>)
        ensures
            r is Ok,
            final(self).bound() == old(self).bound(),
    {
        proof {
            self.inner.lemma_remaining();
            lemma_bounded(self.inner.remaining(), self.end_bound);
            lemma_bounded_advance(self.inner.remaining(), self.end_bound);
        }
        let ghost before = bounded(self.inner.remaining(), self.end_bound);
        if !self.is_valid {
            return Ok(());
        }
        assert(before[0] == self.inner.remaining()[0]);
        match self.next_inner() {
            Ok(()) => {},
            Err(e) => {
                return Err(e);
            },
        }
        proof {
            if before.len() > 0 {
                assert(live(before).skip(1) =~= live(before.skip(1)));
            }
        }
        self.move_to_non_delete()
    }

    fn num_active_iterators(&self) -> (n: usize) {
        self.inner.num_active_iterators()
    }
}

/// A wrapper around an iterator that makes it safe to go on after a
/// failure: once `next` has failed, the iterator is not valid, and `next`
/// fails at once. On an iterator that is not valid `next` does nothing.
pub struct FusedIterator<I: StorageIterator> {
    iter: I,
    has_errored: bool,
}

impl<I: StorageIterator> FusedIterator<I> {
    /// Whether `next` has failed.
    pub closed spec fn errored(&self) -> bool {
        self.has_errored
    }

    /// What is left of the wrapped iterator.
    pub closed spec fn source(&self) -> Seq<Entry> {
        self.iter.remaining()
    }

    /// The number of active iterators of the wrapped iterator.
    pub closed spec fn source_active(&self) -> nat {
        self.iter.active_iterators()
    }

    /// Wraps `iter`.
    pub fn new(iter: I) -> (r: Self)
        requires
            iter.wf(),
        ensures
            r.wf(),
            !r.errored(),
            r.source() == iter.remaining(),
            r.source_active() == iter.active_iterators(),
            r.remaining() == iter.remaining(),
    {
        Self { iter, has_errored: false }
    }

    /// Whether `next` has failed.
    pub fn has_errored(&self) -> (b: bool)
        ensures
            b == self.errored(),
    {
        self.has_errored
    }
}

impl<I: StorageIterator> StorageIterator for FusedIterator<I> {
    closed spec fn wf(&self) -> bool {
        self.iter.wf() && (I::infallible() ==> !self.has_errored)
    }

    /// Nothing is left once `next` has failed, and else what is left of
    /// the wrapped iterator.
    open spec fn remaining(&self) -> Seq<Entry> {
        if self.errored() {
            Seq::empty()
        } else {
            self.source()
        }
    }

    open spec fn infallible() -> bool {
        I::infallible()
    }

    open spec fn active_iterators(&self) -> nat {
        self.source_active()
    }

    proof fn lemma_remaining(&self) {
        self.iter.lemma_remaining();
    }

    fn is_valid(&self) -> (b: bool) {
        !self.has_errored && self.iter.is_valid()
    }

    fn key(&self) -> (k: &[u8]) {
        self.iter.key()
    }

    fn value(&self) -> (v: &[u8]) {
        self.iter.value()
    }

    /// Moves the wrapped iterator on, unless it failed before or is not
    /// valid.
    fn next(&mut self) -> (r: Result<(), Error>)
        ensures
            old(self).errored() ==> r == Err::<(), Error>(Error::Fused) && final(self).errored(),
            !old(self).errored() && old(self).source().len() == 0 ==> r is Ok && final(self).source() == old(self).source(),
            r is Err ==> final(self).errored(),
            r is Ok ==> !final(self).errored(),
            r is Ok ==> final(self).source() == advance(old(self).source()),
    {
        if self.has_errored {
            return Err(Error::Fused);
        }
        if !self.iter.is_valid() {
            return Ok(());
        }
        match self.iter.next() {
            Ok(()) => Ok(()),
            Err(e) => {
                self.has_errored = true;
                Err(e)
            },
        }
    }

    fn num_active_iterators(&self) -> (n: usize) {
        self.iter.num_active_iterators()
    }
}

} // verus!
