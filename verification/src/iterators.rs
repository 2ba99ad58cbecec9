//! The contract that every iterator of the store meets, and the iterators
//! that combine others.

pub mod concat_iterator;
pub mod merge_iterator;
pub mod two_merge_iterator;

use crate::entries::Entry;
use crate::error::LsmError;
use vstd::prelude::*;

verus! {

/// What remains after a step: the entries without the first; nothing where
/// nothing remained.
pub open spec fn rest_after(s: Seq<Entry>) -> Seq<Entry> {
    if s.len() > 0 {
        s.skip(1)
    } else {
        s
    }
}

/// A forward iterator over key-value entries.
///
/// What an iterator will give is its `remaining` entries, the current one
/// first. It is valid while an entry remains.
pub trait StorageIterator {
    /// The iterator is in a state that its methods can work on.
    spec fn wf(&self) -> bool;

    /// The entries still to come, the current one first.
    spec fn remaining(&self) -> Seq<Entry>;

    /// Whether `next` of this type of iterator can report an error.
    spec fn can_fail() -> bool;

    /// Tells whether the iterator stands at an entry.
    fn is_valid(&self) -> (r: bool)
        requires
            self.wf(),
        ensures
            r == (self.remaining().len() > 0),
    ;

    /// The key of the current entry.
    fn key(&self) -> (r: &[u8])
        requires
            self.wf(),
            self.remaining().len() > 0,
        ensures
            r@ == self.remaining()[0].0,
    ;

    /// The value of the current entry.
    fn value(&self) -> (r: &[u8])
        requires
            self.wf(),
            self.remaining().len() > 0,
        ensures
            r@ == self.remaining()[0].1,
    ;

    /// Moves to the next entry; an iterator at its end stays there. After an
    /// error the iterator can still be worked on, but what remains of it is
    /// not known.
    fn next(&mut self) -> (r: Result<(), LsmError>)
        requires
            old(self).wf(),
        ensures
            final(self).wf(),
            r is Ok ==> final(self).remaining() == rest_after(old(self).remaining()),
            !Self::can_fail() ==> r is Ok,
    ;

    /// The number of iterators that this one counts as being at work in it.
    spec fn active_iterators(&self) -> usize;

    /// The number of iterators at work in this one.
    fn num_active_iterators(&self) -> (r: usize)
        ensures
            r == self.active_iterators(),
    ;
}

} // verus!
