//! The iterator that a scan of the store gives.

use crate::bound::{prefix_within, within_upper, Bound};
use crate::entries::{live, Entry};
use crate::error::LsmError;
use crate::iterators::StorageIterator;
use crate::iterators::concat_iterator::SstConcatIterator;
use crate::iterators::merge_iterator::MergeIterator;
use crate::iterators::two_merge_iterator::TwoMergeIterator;
use crate::mem_table::MemTableIterator;
use crate::table::iterator::SsTableIterator;
use vstd::prelude::*;

verus! {

/// The merge of the memtables, over that of the tables of level 0, over that
/// of the deeper levels.
pub type LsmIteratorInner = TwoMergeIterator<
    TwoMergeIterator<MergeIterator<MemTableIterator>, MergeIterator<SsTableIterator>>,
    MergeIterator<SstConcatIterator>,
>;

/// Walks the merged layers of the store up to an upper bound, passing over tombstones.
pub struct LsmIterator {
    inner: LsmIteratorInner,
    upper: Bound,
}

impl LsmIterator {
    /// The merged layers are well formed, and at an entry within the bound
    /// they do not stand at a tombstone.
    pub closed spec fn settled(&self) -> bool {
        let r = self.inner.remaining();
        &&& self.inner.wf()
        &&& r.len() > 0 && within_upper(self.upper@, r[0].0) ==> r[0].1.len() > 0
    }

    /// The entries still to come.
    pub closed spec fn rest(&self) -> Seq<Entry> {
        live(prefix_within(self.inner.remaining(), self.upper@))
    }

    /// Tells whether the merged layers stand at an entry within the bound.
    fn at_entry(&self) -> (r: bool)
        requires
            self.inner.wf(),
        ensures
            r == (self.inner.remaining().len() > 0 && within_upper(
                self.upper@,
                self.inner.remaining()[0].0,
            )),
    {
        self.inner.is_valid() && self.upper.admits(self.inner.key())
    }

    /// Passes over the tombstones at the front.
    fn skip_tombstones(&mut self) -> (r: Result<(), LsmError>)
        requires
            old(self).inner.wf(),
        ensures
            r is Ok,
            final(self).settled(),
            final(self).upper == old(self).upper,
            final(self).rest() == old(self).rest(),
    {
        while self.at_entry() && self.inner.value().len() == 0
            invariant
                self.inner.wf(),
                self.upper == old(self).upper,
                self.rest() == old(self).rest(),
            decreases self.inner.remaining().len(),
        {
            let ghost r = self.inner.remaining();
            proof {
                assert((seq![r[0]] + prefix_within(r.skip(1), self.upper@)).skip(1)
                    =~= prefix_within(r.skip(1), self.upper@));
            }
            match self.inner.next() {
                Ok(()) => {},
                Err(e) => {
                    return Err(e);
                },
            }
        }
        Ok(())
    }

    /// The entries of `iter` up to `upper`, without tombstones.
    pub fn new(iter: LsmIteratorInner, upper: Bound) -> (r: Result<Self, LsmError>)
        requires
            iter.wf(),
        ensures
            r matches Ok(it) && it.wf() && it.remaining() == live(
                prefix_within(iter.remaining(), upper@),
            ),
    {
        let mut lsm_iter = LsmIterator { inner: iter, upper };
        match lsm_iter.skip_tombstones() {
            Ok(()) => Ok(lsm_iter),
            Err(e) => Err(e),
        }
    }

    /// While an entry remains, the merged layers stand at it.
    proof fn lemma_current(&self)
        requires
            self.settled(),
        ensures
            self.rest().len() > 0 <==> self.inner.remaining().len() > 0 && within_upper(
                self.upper@,
                self.inner.remaining()[0].0,
            ),
            self.rest().len() > 0 ==> self.rest()[0] == self.inner.remaining()[0]
                && self.rest().skip(1) == live(
                prefix_within(self.inner.remaining().skip(1), self.upper@),
            ),
    {
        let r = self.inner.remaining();
        if r.len() > 0 && within_upper(self.upper@, r[0].0) {
            let p = prefix_within(r, self.upper@);
            assert(p.skip(1) =~= prefix_within(r.skip(1), self.upper@));
            assert(live(p).skip(1) =~= live(p.skip(1)));
        } else {
            assert(live(prefix_within(r, self.upper@)) =~= Seq::<Entry>::empty());
        }
    }
}

impl StorageIterator for LsmIterator {
    open spec fn wf(&self) -> bool {
        self.settled()
    }

    open spec fn remaining(&self) -> Seq<Entry> {
        self.rest()
    }

    open spec fn can_fail() -> bool {
        false
    }

    fn is_valid(&self) -> (r: bool) {
        proof {
            self.lemma_current();
        }
        self.at_entry()
    }

    fn key(&self) -> (r: &[u8]) {
        proof {
            self.lemma_current();
        }
        self.inner.key()
    }

    fn value(&self) -> (r: &[u8]) {
        proof {
            self.lemma_current();
        }
        self.inner.value()
    }

    fn next(&mut self) -> (r: Result<(), LsmError>) {
        proof {
            self.lemma_current();
        }
        if !self.at_entry() {
            return Ok(());
        }
        match self.inner.next() {
            Ok(()) => {},
            Err(e) => {
                return Err(e);
            },
        }
        self.skip_tombstones()
    }

    /// What the merge of the layers counts: one.
    open spec fn active_iterators(&self) -> usize {
        1
    }

    fn num_active_iterators(&self) -> (r: usize) {
        self.inner.num_active_iterators()
    }
}

/// Wraps an iterator so that `next` is safe to call at any time: once the
/// wrapped iterator has reported an error, the wrapper stays at its end and
/// every `next` reports an error.
pub struct FusedIterator<I: StorageIterator> {
    iter: I,
    has_errored: bool,
}

impl<I: StorageIterator> FusedIterator<I> {
    /// Whether the wrapped iterator has reported an error.
    pub closed spec fn errored(&self) -> bool {
        self.has_errored
    }

    /// The wrapped iterator.
    pub closed spec fn wrapped(&self) -> I {
        self.iter
    }

    /// Wraps `iter`.
    pub fn new(iter: I) -> (r: Self)
        requires
            iter.wf(),
        ensures
            r.wf(),
            !r.errored(),
            r.wrapped() == iter,
            r.remaining() == iter.remaining(),
    {
        FusedIterator { iter, has_errored: false }
    }
}

impl<I: StorageIterator> StorageIterator for FusedIterator<I> {
    open spec fn wf(&self) -> bool {
        if self.errored() {
            I::can_fail()
        } else {
            self.wrapped().wf()
        }
    }

    open spec fn remaining(&self) -> Seq<Entry> {
        if self.errored() {
            Seq::empty()
        } else {
            self.wrapped().remaining()
        }
    }

    open spec fn can_fail() -> bool {
        I::can_fail()
    }

    fn is_valid(&self) -> (r: bool) {
        !self.has_errored && self.iter.is_valid()
    }

    fn key(&self) -> (r: &[u8]) {
        self.iter.key()
    }

    fn value(&self) -> (r: &[u8]) {
        self.iter.value()
    }

    /// After an error every call gives `IteratorErrored` and leaves the
    /// wrapper, the wrapped iterator with it, as it is. Without one, a
    /// wrapper at its end stays as it is and no error comes; else the wrapped
    /// iterator is moved, and an error of it is handed on and kept in mind.
    fn next(&mut self) -> (r: Result<(), LsmError>)
        ensures
            final(self).wf(),
            old(self).errored() ==> r == Err::<(), LsmError>(LsmError::IteratorErrored)
                && *final(self) == *old(self),
            !old(self).errored() ==> (r is Err <==> final(self).errored()),
            !old(self).errored() && old(self).remaining().len() == 0 ==> r is Ok && *final(self)
                == *old(self),
    {
        if self.has_errored {
            return Err(LsmError::IteratorErrored);
        }
        if self.iter.is_valid() {
            match self.iter.next() {
                Ok(()) => {},
                Err(e) => {
                    self.has_errored = true;
                    return Err(e);
                },
            }
        }
        Ok(())
    }

    /// What the wrapped iterator counts, also after an error.
    open spec fn active_iterators(&self) -> usize {
        self.wrapped().active_iterators()
    }

    fn num_active_iterators(&self) -> (r: usize) {
        self.iter.num_active_iterators()
    }
}

} // verus!
