//! Merges any number of iterators of one type; the one with the smaller
//! index wins where several hold a key.

use crate::entries::{
    all_empty, drop_key, is_winner, lemma_merge_n_empty, lemma_merge_n_head, lemma_merge_n_step,
    merge_n, Entry,
};
use crate::error::LsmError;
use crate::key::{
    key_equal, key_less, key_to_vec, lemma_key_lt_le, lemma_key_lt_total, lemma_key_lt_transitive,
};
use super::StorageIterator;
use vstd::prelude::*;

verus! {

/// What each of the iterators has still to give.
pub open spec fn runs_of<I: StorageIterator>(iters: Seq<I>) -> Seq<Seq<Entry>> {
    Seq::new(iters.len(), |j: int| iters[j].remaining())
}

/// Every one of the iterators is well formed.
pub open spec fn all_wf<I: StorageIterator>(iters: Seq<I>) -> bool {
    forall|j: int| 0 <= j < iters.len() ==> (#[trigger] iters[j]).wf()
}

/// The index of the iterator that stands at the smallest key, the first of
/// them where several do; none where all are at their end.
pub fn find_winner<I: StorageIterator>(iters: &Vec<I>) -> (r: Option<usize>)
    requires
        all_wf(iters@),
    ensures
        r matches Some(c) ==> is_winner(runs_of(iters@), c as int),
        r is None ==> all_empty(runs_of(iters@)),
{
    let ghost runs = runs_of(iters@);
    let n: usize = iters.len();
    let mut best: Option<usize> = None;
    let mut i: usize = 0;
    while i < n
        invariant
            0 <= i <= n,
            n == iters@.len(),
            all_wf(iters@),
            runs == runs_of(iters@),
            best is None ==> forall|j: int| 0 <= j < i ==> (#[trigger] runs[j]).len() == 0,
            best matches Some(c) ==> {
                &&& c < i
                &&& runs[c as int].len() > 0
                &&& forall|j: int|
                    0 <= j < c && (#[trigger] runs[j]).len() > 0 ==> crate::key::key_lt(
                        runs[c as int][0].0,
                        runs[j][0].0,
                    )
                &&& forall|j: int|
                    c < j < i && (#[trigger] runs[j]).len() > 0 ==> crate::key::key_le(
                        runs[c as int][0].0,
                        runs[j][0].0,
                    )
            },
        decreases n - i,
    {
        assert(iters@[i as int].wf());
        assert(runs[i as int] == iters@[i as int].remaining());
        if iters[i].is_valid() {
            match best {
                None => {
                    best = Some(i);
                },
                Some(c) => {
                    assert(iters@[c as int].wf());
                    assert(runs[c as int] == iters@[c as int].remaining());
                    let hi = iters[i].key();
                    let hc = iters[c].key();
                    if key_less(hi, hc) {
                        proof {
                            assert forall|j: int|
                                0 <= j < i && (#[trigger] runs[j]).len() > 0 implies crate::key::key_lt(
                                runs[i as int][0].0,
                                runs[j][0].0,
                            ) by {
                                if j < c {
                                    lemma_key_lt_transitive(hi@, hc@, runs[j][0].0);
                                } else if j > c {
                                    lemma_key_lt_le(hi@, hc@, runs[j][0].0);
                                }
                            }
                        }
                        best = Some(i);
                    } else {
                        proof {
                            lemma_key_lt_total(hi@, hc@);
                        }
                    }
                },
            }
        }
        i = i + 1;
    }
    best
}

/// Merges iterators of one type into one that gives each key once. Where
/// several hold a key, the entry of the one with the smallest index is given
/// and the others are passed over. After an error of one of them the merge
/// is at its end.
pub struct MergeIterator<I: StorageIterator> {
    iters: Vec<I>,
    /// The index of the iterator that holds the current entry.
    current: Option<usize>,
}

impl<I: StorageIterator> MergeIterator<I> {
    /// What each of the merged iterators has still to give.
    pub closed spec fn runs(&self) -> Seq<Seq<Entry>> {
        runs_of(self.iters@)
    }

    /// Every merged iterator is well formed, and the current one stands at
    /// the smallest key.
    pub closed spec fn settled(&self) -> bool {
        &&& all_wf(self.iters@)
        &&& self.current matches Some(c) ==> is_winner(runs_of(self.iters@), c as int)
    }

    /// The entries still to come.
    pub closed spec fn merged(&self) -> Seq<Entry> {
        if self.current is Some {
            merge_n(runs_of(self.iters@))
        } else {
            Seq::empty()
        }
    }

    /// The merge of `iters`, at its first entry.
    pub fn create(iters: Vec<I>) -> (r: Self)
        requires
            all_wf(iters@),
        ensures
            r.wf(),
            r.remaining() == merge_n(runs_of(iters@)),
    {
        let current = find_winner(&iters);
        proof {
            if current is None {
                lemma_merge_n_empty(runs_of(iters@));
                assert(merge_n(runs_of(iters@)) =~= Seq::<Entry>::empty());
            }
        }
        MergeIterator { iters, current }
    }
}

impl<I: StorageIterator> StorageIterator for MergeIterator<I> {
    open spec fn wf(&self) -> bool {
        self.settled()
    }

    open spec fn remaining(&self) -> Seq<Entry> {
        self.merged()
    }

    open spec fn can_fail() -> bool {
        I::can_fail()
    }

    fn key(&self) -> (r: &[u8]) {
        let c: usize = self.current.unwrap();
        proof {
            lemma_merge_n_head(runs_of(self.iters@), c as int);
        }
        self.iters[c].key()
    }

    fn value(&self) -> (r: &[u8]) {
        let c: usize = self.current.unwrap();
        proof {
            lemma_merge_n_head(runs_of(self.iters@), c as int);
        }
        self.iters[c].value()
    }

    fn is_valid(&self) -> (r: bool) {
        proof {
            if let Some(c) = self.current {
                lemma_merge_n_head(runs_of(self.iters@), c as int);
            }
        }
        self.current.is_some()
    }

    /// A merge at its end stays as it is, and no error comes. The error of
    /// an input is handed on, and the merge is at its end after it.
    fn next(&mut self) -> (r: Result<(), LsmError>)
        ensures
            old(self).remaining().len() == 0 ==> r is Ok && *final(self) == *old(self),
            r is Err ==> final(self).remaining().len() == 0,
    {
        let c: usize = match self.current {
            Some(c) => c,
            None => {
                return Ok(());
            },
        };
        proof {
            lemma_merge_n_head(runs_of(self.iters@), c as int);
        }
        let ghost old_runs = runs_of(self.iters@);
        let key: Vec<u8> = key_to_vec(self.iters[c].key());
        let n: usize = self.iters.len();
        let mut i: usize = 0;
        while i < n
            invariant
                0 <= i <= n,
                n == self.iters@.len(),
                n == old_runs.len(),
                old(self).remaining().len() > 0,
                all_wf(self.iters@),
                forall|j: int|
                    0 <= j < i ==> (#[trigger] self.iters@[j]).remaining() == drop_key(
                        old_runs[j],
                        key@,
                    ),
                forall|j: int|
                    i <= j < n ==> (#[trigger] self.iters@[j]).remaining() == old_runs[j],
            decreases n - i,
        {
            assert(self.iters@[i as int].wf());
            if self.iters[i].is_valid() && key_equal(self.iters[i].key(), key.as_slice()) {
                let ghost before = self.iters@;
                match self.iters[i].next() {
                    Ok(()) => {},
                    Err(e) => {
                        assert(self.iters@ == before.update(i as int, self.iters@[i as int]));
                        self.current = None;
                        return Err(e);
                    },
                }
                assert(self.iters@ == before.update(i as int, self.iters@[i as int]));
            }
            i = i + 1;
        }
        self.current = find_winner(&self.iters);
        proof {
            let new_runs = runs_of(self.iters@);
            assert(key@ == old_runs[c as int][0].0);
            lemma_merge_n_step(old_runs, c as int, new_runs);
            if self.current is None {
                lemma_merge_n_empty(new_runs);
                assert(merge_n(new_runs) =~= Seq::<Entry>::empty());
            }
        }
        Ok(())
    }

    /// A merge counts as one iterator, however many it merges.
    open spec fn active_iterators(&self) -> usize {
        1
    }

    fn num_active_iterators(&self) -> (r: usize) {
        1
    }
}

} // verus!
