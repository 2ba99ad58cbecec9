//! Merges two iterators; the first wins where both hold a key.

use crate::entries::{lemma_merge2_empty, merge2, Entry};
use crate::error::LsmError;
use crate::key::{key_equal, key_less};
use super::StorageIterator;
use vstd::prelude::*;

verus! {

/// Neither of two iterators with these entries to come has to be moved
/// before they are merged: they do not stand at the same key.
pub open spec fn at_rest(ra: Seq<Entry>, rb: Seq<Entry>) -> bool {
    ra.len() > 0 && rb.len() > 0 ==> ra[0].0 != rb[0].0
}

/// Merges two iterators of possibly different types into one that gives
/// each key once. Where both hold a key, the entry of `a` is given, be it a
/// tombstone, and that of `b` is passed over. After an error of one of them
/// the merge is at its end.
pub struct TwoMergeIterator<A: StorageIterator, B: StorageIterator> {
    a: A,
    b: B,
    /// Whether the current entry is that of `a`.
    current_is_a: bool,
    /// Whether an iterator has reported an error since the current entry
    /// was last chosen.
    failed: bool,
}

impl<A: StorageIterator, B: StorageIterator> TwoMergeIterator<A, B> {
    /// The first of the two iterators.
    pub closed spec fn first(&self) -> A {
        self.a
    }

    /// The second of the two iterators.
    pub closed spec fn second(&self) -> B {
        self.b
    }

    /// Both iterators are well formed.
    pub open spec fn parts_wf(&self) -> bool {
        self.first().wf() && self.second().wf()
    }

    /// Whether an iterator has reported an error since the current entry
    /// was last chosen.
    pub closed spec fn errored(&self) -> bool {
        self.failed
    }

    /// Both iterators are well formed and, unless one has reported an
    /// error, the current entry is chosen.
    pub closed spec fn settled(&self) -> bool {
        let ra = self.a.remaining();
        let rb = self.b.remaining();
        &&& self.a.wf()
        &&& self.b.wf()
        &&& !self.failed ==> {
            &&& self.current_is_a ==> ra.len() > 0
            &&& !self.current_is_a ==> ra.len() == 0 || rb.len() > 0
        }
    }

    /// The entries still to come: none after an error.
    pub closed spec fn merged(&self) -> Seq<Entry> {
        let ra = self.a.remaining();
        let rb = self.b.remaining();
        if self.failed || (ra.len() == 0 && rb.len() == 0) {
            Seq::empty()
        } else if self.current_is_a {
            seq![ra[0]] + merge2(ra.skip(1), rb)
        } else {
            seq![rb[0]] + merge2(ra, rb.skip(1))
        }
    }

    /// A well-formed merge has well-formed parts.
    pub proof fn lemma_wf(&self)
        requires
            self.wf(),
        ensures
            self.parts_wf(),
    {
    }

    /// Takes as current entry the one with the smaller key, that of `a`
    /// where the keys are equal; `b` is then moved past that key. Where `b`
    /// has not to be moved, both iterators stay as they are and no error
    /// comes; else an error of `b` is handed on, and the merge is at its end
    /// after it, until it is settled again.
    pub fn move_to_exist(&mut self) -> (r: Result<(), LsmError>)
        requires
            old(self).parts_wf(),
        ensures
            final(self).wf(),
            final(self).parts_wf(),
            final(self).first() == old(self).first(),
            r is Err <==> final(self).errored(),
            r is Err ==> final(self).remaining().len() == 0,
            r is Ok ==> final(self).remaining() == merge2(
                old(self).first().remaining(),
                old(self).second().remaining(),
            ),
            !B::can_fail() ==> r is Ok,
            at_rest(old(self).first().remaining(), old(self).second().remaining()) ==> r is Ok
                && final(self).second() == old(self).second(),
    {
        let ghost ra = self.a.remaining();
        let ghost rb = self.b.remaining();
        proof {
            lemma_merge2_empty(ra);
            lemma_merge2_empty(rb);
            lemma_merge2_empty(ra.skip(1));
            lemma_merge2_empty(rb.skip(1));
            if ra.len() > 0 {
                assert(seq![ra[0]] + ra.skip(1) =~= ra);
                crate::key::lemma_key_lt_irreflexive(ra[0].0);
            }
            if rb.len() > 0 {
                assert(seq![rb[0]] + rb.skip(1) =~= rb);
            }
        }
        self.failed = false;
        if self.a.is_valid() && self.b.is_valid() {
            if key_equal(self.a.key(), self.b.key()) {
                self.current_is_a = true;
                match self.b.next() {
                    Ok(()) => {},
                    Err(e) => {
                        self.failed = true;
                        return Err(e);
                    },
                }
            } else if key_less(self.a.key(), self.b.key()) {
                self.current_is_a = true;
            } else {
                self.current_is_a = false;
            }
        } else if self.a.is_valid() {
            self.current_is_a = true;
        } else {
            self.current_is_a = false;
        }
        Ok(())
    }

    /// The merge of `a` and `b`, at its first entry. Where `b` has not to be
    /// moved to get there, no error comes.
    pub fn create(a: A, b: B) -> (r: Result<Self, LsmError>)
        requires
            a.wf(),
            b.wf(),
        ensures
            r matches Ok(it) ==> it.wf() && it.parts_wf() && !it.errored() && it.first() == a
                && it.remaining() == merge2(a.remaining(), b.remaining()),
            !B::can_fail() ==> r is Ok,
            at_rest(a.remaining(), b.remaining()) ==> (r matches Ok(it) && it.second() == b),
    {
        let mut iter = Self { a, b, current_is_a: true, failed: false };
        match iter.move_to_exist() {
            Ok(()) => Ok(iter),
            Err(e) => Err(e),
        }
    }
}

impl<A: StorageIterator, B: StorageIterator> StorageIterator for TwoMergeIterator<A, B> {
    open spec fn wf(&self) -> bool {
        self.settled()
    }

    open spec fn remaining(&self) -> Seq<Entry> {
        self.merged()
    }

    open spec fn can_fail() -> bool {
        A::can_fail() || B::can_fail()
    }

    fn key(&self) -> (r: &[u8]) {
        if self.current_is_a {
            self.a.key()
        } else {
            self.b.key()
        }
    }

    fn value(&self) -> (r: &[u8]) {
        if self.current_is_a {
            self.a.value()
        } else {
            self.b.value()
        }
    }

    fn is_valid(&self) -> (r: bool) {
        !self.failed && (self.a.is_valid() || self.b.is_valid())
    }

    /// A merge at its end stays as it is, and no error comes. The error of
    /// an input is handed on, and the merge is at its end after it.
    fn next(&mut self) -> (r: Result<(), LsmError>)
        ensures
            final(self).parts_wf(),
            old(self).remaining().len() == 0 ==> r is Ok && *final(self) == *old(self),
            r is Err ==> final(self).errored() && final(self).remaining().len() == 0,
    {
        let ghost ra = self.a.remaining();
        let ghost rb = self.b.remaining();
        if self.failed || (!self.a.is_valid() && !self.b.is_valid()) {
            return Ok(());
        }
        proof {
            if self.current_is_a {
                assert((seq![ra[0]] + merge2(ra.skip(1), rb)).skip(1) =~= merge2(ra.skip(1), rb));
            } else {
                assert((seq![rb[0]] + merge2(ra, rb.skip(1))).skip(1) =~= merge2(ra, rb.skip(1)));
            }
        }
        if self.current_is_a {
            match self.a.next() {
                Ok(()) => {},
                Err(e) => {
                    self.failed = true;
                    return Err(e);
                },
            }
        } else {
            match self.b.next() {
                Ok(()) => {},
                Err(e) => {
                    self.failed = true;
                    return Err(e);
                },
            }
        }
        match self.move_to_exist() {
            Ok(()) => Ok(()),
            Err(e) => Err(e),
        }
    }

    /// A merge counts as one iterator, however many it merges.
    open spec fn active_iterators(&self) -> usize {
        1
    }

    fn num_active_iterators(&self) -> (r: usize) {
        1
    }
}

} // verus!
