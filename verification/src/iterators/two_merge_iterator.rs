//! The overlay of two iterators.

use vstd::prelude::*;
use crate::error::Error;
use crate::iterators::{advance, lemma_merge2, merge2, StorageIterator};
use crate::key::{compare_keys, key_less_eq, lemma_key_le_lt, lemma_key_lt_asymmetric, KeyOrder};
use crate::run::Entry;

verus! {

/// Merges two iterators of different types into one. Where the two have the
/// same key, the key comes once, with the entry of `a`.
pub struct TwoMergeIterator<A: StorageIterator, B: StorageIterator> {
    a: A,
    b: B,
}

impl<A: StorageIterator, B: StorageIterator> TwoMergeIterator<A, B> {
    /// What is left of the first iterator.
    pub closed spec fn first(&self) -> Seq<Entry> {
        self.a.remaining()
    }

    /// What is left of the second iterator.
    pub closed spec fn second(&self) -> Seq<Entry> {
        self.b.remaining()
    }

    /// Both iterators are well-formed.
    pub closed spec fn parts_wf(&self) -> bool {
        self.a.wf() && self.b.wf()
    }

    /// Creates the overlay of `a` over `b`.
    pub fn create(a: A, b: B) -> (r: Self)
        requires
            a.wf(),
            b.wf(),
        ensures
            r.wf(),
            r.remaining() == merge2(a.remaining(), b.remaining()),
            r.first() == a.remaining(),
            r.second() == b.remaining(),
            r.active_iterators() == a.active_iterators() + b.active_iterators(),
    {
        Self { a, b }
    }

    /// Whether the current entry is that of `a`.
    fn takes_first(&self) -> (r: bool)
        requires
            self.parts_wf(),
        ensures
            r == (self.second().len() == 0 || (self.first().len() > 0 && crate::key::key_le(
                self.first()[0].0,
                self.second()[0].0,
            ))),
            self.remaining().len() > 0 ==> self.remaining()[0] == if r {
                self.first()[0]
            } else {
                self.second()[0]
            },
    {
        proof {
            self.a.lemma_remaining();
            self.b.lemma_remaining();
            lemma_merge2(self.first(), self.second());
            if self.first().len() > 0 && self.second().len() > 0 {
                lemma_key_le_lt(self.first()[0].0, self.second()[0].0, self.first()[0].0);
            }
        }
        !self.b.is_valid() || (self.a.is_valid() && key_less_eq(self.a.key(), self.b.key()))
    }
}

impl<A: StorageIterator, B: StorageIterator> StorageIterator for TwoMergeIterator<A, B> {
    closed spec fn wf(&self) -> bool {
        self.a.wf() && self.b.wf()
    }

    /// The first iterator laid over the second.
    open spec fn remaining(&self) -> Seq<Entry> {
        merge2(self.first(), self.second())
    }

    open spec fn infallible() -> bool {
        A::infallible() && B::infallible()
    }

    closed spec fn active_iterators(&self) -> nat {
        self.a.active_iterators() + self.b.active_iterators()
    }

    proof fn lemma_remaining(&self) {
        self.a.lemma_remaining();
        self.b.lemma_remaining();
        lemma_merge2(self.a.remaining(), self.b.remaining());
    }

    fn key(&self) -> (k: &[u8]) {
        if self.takes_first() {
            self.a.key()
        } else {
            self.b.key()
        }
    }

    fn value(&self) -> (v: &[u8]) {
        if self.takes_first() {
            self.a.value()
        } else {
            self.b.value()
        }
    }

    fn is_valid(&self) -> (b: bool) {
        proof {
            self.a.lemma_remaining();
            self.b.lemma_remaining();
            lemma_merge2(self.a.remaining(), self.b.remaining());
        }
        self.a.is_valid() || self.b.is_valid()
    }

    fn next(&mut self) -> (r: Result<(), Error>) {
        let ghost a0 = self.a.remaining();
        let ghost b0 = self.b.remaining();
        proof {
            self.a.lemma_remaining();
            self.b.lemma_remaining();
            lemma_merge2(a0, b0);
        }
        if !self.a.is_valid() {
            let r = self.b.next();
            proof {
                if r is Ok {
                    assert(merge2(a0, advance(b0)) =~= advance(merge2(a0, b0)));
                }
            }
            r
        } else if !self.b.is_valid() {
            let r = self.a.next();
            proof {
                if r is Ok {
                    lemma_merge2(advance(a0), b0);
                    assert(merge2(advance(a0), b0) =~= advance(merge2(a0, b0)));
                }
            }
            r
        } else {
            match compare_keys(self.a.key(), self.b.key()) {
                KeyOrder::Before => {
                    let r = self.a.next();
                    proof {
                        if r is Ok {
                            assert(merge2(advance(a0), b0) =~= advance(merge2(a0, b0)));
                        }
                    }
                    r
                },
                KeyOrder::After => {
                    proof {
                        lemma_key_lt_asymmetric(b0[0].0, a0[0].0);
                    }
                    let r = self.b.next();
                    proof {
                        if r is Ok {
                            assert(merge2(a0, advance(b0)) =~= advance(merge2(a0, b0)));
                        }
                    }
                    r
                },
                KeyOrder::Same => {
                    proof {
                        crate::key::lemma_key_lt_irreflexive(a0[0].0);
                    }
                    match self.a.next() {
                        Ok(()) => {},
                        Err(e) => {
                            return Err(e);
                        },
                    }
                    let r = self.b.next();
                    proof {
                        if r is Ok {
                            assert(merge2(advance(a0), advance(b0)) =~= advance(merge2(a0, b0)));
                        }
                    }
                    r
                },
            }
        }
    }

    fn num_active_iterators(&self) -> (n: usize) {
        self.a.num_active_iterators().saturating_add(self.b.num_active_iterators())
    }
}

} // verus!
