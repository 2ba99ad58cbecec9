//! Walks tables that follow each other in key order, one after the other.

use crate::entries::{
    concat_from, lemma_lower_bound_within, lemma_seek_run, lower_bound, sorted, Entry,
};
use crate::error::LsmError;
use crate::key::{key_less_eq, lemma_key_lt_total};
use crate::table::{share, SsTable};
use crate::table::iterator::SsTableIterator;
use std::sync::Arc;
use super::StorageIterator;
use vstd::prelude::*;

verus! {

/// The entries of each table.
pub open spec fn tables_view(tables: Seq<Arc<SsTable>>) -> Seq<Seq<Entry>> {
    Seq::new(tables.len(), |i: int| tables[i]@)
}

/// Every table is well formed.
pub open spec fn tables_wf(tables: Seq<Arc<SsTable>>) -> bool {
    forall|i: int| 0 <= i < tables.len() ==> (#[trigger] tables[i]).wf()
}

/// Walks the entries of a list of tables, table by table. The iterator of a
/// table is made when the walk reaches it.
pub struct SstConcatIterator {
    /// The position in the current table.
    current: Option<SsTableIterator>,
    /// The index of the table after the current one.
    next_sst_idx: usize,
    sstables: Vec<Arc<SsTable>>,
}

impl SstConcatIterator {
    /// The entries of each of the tables walked over.
    pub closed spec fn sources(&self) -> Seq<Seq<Entry>> {
        tables_view(self.sstables@)
    }

    /// The tables are well formed, and the current iterator walks the table
    /// before the next and stands at an entry unless the tables are exhausted.
    pub closed spec fn settled(&self) -> bool {
        &&& tables_wf(self.sstables@)
        &&& self.next_sst_idx <= self.sstables@.len()
        &&& self.current matches Some(it) ==> it.wf() && (it.remaining().len() > 0
            || self.next_sst_idx == self.sstables@.len())
    }

    /// The entries still to come.
    pub closed spec fn rest(&self) -> Seq<Entry> {
        match self.current {
            Some(it) => it.remaining() + concat_from(
                tables_view(self.sstables@),
                self.next_sst_idx as int,
            ),
            None => Seq::empty(),
        }
    }

    /// An iterator at the first entry of the first table.
    pub fn create_and_seek_to_first(sstables: Vec<Arc<SsTable>>) -> (r: Result<Self, LsmError>)
        requires
            tables_wf(sstables@),
        ensures
            r matches Ok(it) && it.wf() && it.sources() == tables_view(sstables@) && it.remaining()
                == concat_from(tables_view(sstables@), 0),
    {
        if sstables.len() == 0 {
            return Ok(SstConcatIterator { current: None, next_sst_idx: 0, sstables });
        }
        assert(sstables@[0].wf());
        let it = match SsTableIterator::create_and_seek_to_first(share(&sstables[0])) {
            Ok(it) => it,
            Err(e) => {
                return Err(e);
            },
        };
        proof {
            sstables@[0].lemma_wf();
            assert(tables_view(sstables@)[0] == sstables@[0]@);
        }
        Ok(SstConcatIterator { current: Some(it), next_sst_idx: 1, sstables })
    }

    /// An iterator at the first entry whose key is not before `key`: in the
    /// first table whose last key is not before `key`.
    pub fn create_and_seek_to_key(sstables: Vec<Arc<SsTable>>, key: &[u8]) -> (r: Result<
        Self,
        LsmError,
    >)
        requires
            tables_wf(sstables@),
        ensures
            r matches Ok(it) && it.wf() && it.sources() == tables_view(sstables@) && it.remaining()
                == concat_from(tables_view(sstables@), 0).skip(
                lower_bound(concat_from(tables_view(sstables@), 0), key@),
            ),
    {
        let ghost runs = tables_view(sstables@);
        let n: usize = sstables.len();
        let mut idx: usize = 0;
        while idx < n
            invariant
                0 <= idx <= n,
                n == sstables@.len(),
                tables_wf(sstables@),
                runs == tables_view(sstables@),
                forall|x: int|
                    0 <= x < idx ==> sorted(#[trigger] runs[x]) && runs[x].len() > 0
                        && crate::key::key_lt(runs[x].last().0, key@),
            decreases n - idx,
        {
            assert(sstables@[idx as int].wf());
            proof {
                sstables@[idx as int].lemma_wf();
                assert(runs[idx as int] == sstables@[idx as int]@);
            }
            if key_less_eq(key, sstables[idx].last_key()) {
                let it = match SsTableIterator::create_and_seek_to_key(share(&sstables[idx]), key) {
                    Ok(it) => it,
                    Err(e) => {
                        return Err(e);
                    },
                };
                proof {
                    lemma_lower_bound_within(runs[idx as int], key@);
                    lemma_seek_run(runs, 0, idx as int, key@);
                    let p = lower_bound(runs[idx as int], key@);
                    crate::entries::lemma_lower_bound(runs[idx as int], key@);
                    assert(it.remaining() == runs[idx as int].skip(p));
                    assert(it.remaining().len() > 0);
                }
                return Ok(SstConcatIterator { current: Some(it), next_sst_idx: idx + 1, sstables });
            }
            proof {
                lemma_key_lt_total(key@, runs[idx as int].last().0);
            }
            idx = idx + 1;
        }
        proof {
            lemma_seek_run(runs, 0, n as int, key@);
        }
        Ok(SstConcatIterator { current: None, next_sst_idx: n, sstables })
    }
}

impl StorageIterator for SstConcatIterator {
    open spec fn wf(&self) -> bool {
        self.settled()
    }

    open spec fn remaining(&self) -> Seq<Entry> {
        self.rest()
    }

    open spec fn can_fail() -> bool {
        false
    }

    fn key(&self) -> (r: &[u8]) {
        match &self.current {
            Some(it) => {
                proof {
                    self.lemma_current();
                }
                it.key()
            },
            None => vstd::pervasive::unreached(),
        }
    }

    fn value(&self) -> (r: &[u8]) {
        match &self.current {
            Some(it) => {
                proof {
                    self.lemma_current();
                }
                it.value()
            },
            None => vstd::pervasive::unreached(),
        }
    }

    fn is_valid(&self) -> (r: bool) {
        proof {
            self.lemma_current();
        }
        match &self.current {
            Some(it) => it.is_valid(),
            None => false,
        }
    }

    fn next(&mut self) -> (r: Result<(), LsmError>) {
        proof {
            self.lemma_current();
        }
        let ghost runs = tables_view(self.sstables@);
        let ghost tail = concat_from(runs, self.next_sst_idx as int);
        let mut current: Option<SsTableIterator> = None;
        std::mem::swap(&mut self.current, &mut current);
        match current {
            None => {
                return Ok(());
            },
            Some(mut it) => {
                let ghost before = it.remaining();
                match it.next() {
                    Ok(()) => {},
                    Err(e) => {
                        return Err(e);
                    },
                }
                proof {
                    if before.len() > 0 {
                        assert((before + tail).skip(1) =~= before.skip(1) + tail);
                    } else {
                        assert(before + tail =~= before);
                    }
                }
                if !it.is_valid() && self.next_sst_idx < self.sstables.len() {
                    let ghost prev = it.remaining();
                    let idx: usize = self.next_sst_idx;
                    assert(self.sstables@[idx as int].wf());
                    let fresh = match SsTableIterator::create_and_seek_to_first(
                        share(&self.sstables[idx]),
                    ) {
                        Ok(f) => f,
                        Err(e) => {
                            return Err(e);
                        },
                    };
                    proof {
                        self.sstables@[idx as int].lemma_wf();
                        assert(runs[idx as int] == self.sstables@[idx as int]@);
                        assert(prev + tail =~= tail);
                    }
                    self.next_sst_idx = idx + 1;
                    self.current = Some(fresh);
                } else {
                    self.current = Some(it);
                }
                Ok(())
            },
        }
    }

    /// An iterator that wraps no other counts as one.
    open spec fn active_iterators(&self) -> usize {
        1
    }

    fn num_active_iterators(&self) -> (r: usize) {
        1
    }
}

impl SstConcatIterator {
    /// While an entry remains, the current iterator stands at it.
    proof fn lemma_current(&self)
        requires
            self.settled(),
        ensures
            self.rest().len() > 0 <==> self.current is Some && self.current->0.remaining().len()
                > 0,
            self.rest().len() > 0 ==> self.rest()[0] == self.current->0.remaining()[0],
    {
        if let Some(it) = self.current {
            if it.remaining().len() == 0 {
                assert(concat_from(tables_view(self.sstables@), self.next_sst_idx as int)
                    =~= Seq::<Entry>::empty());
            }
        }
    }
}

} // verus!
