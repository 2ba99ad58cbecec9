//! Walks the entries of a table, forward and by key.

use crate::block::iterator::BlockIterator;
use crate::entries::{concat_from, lemma_seek_position, lower_bound, Entry};
use crate::error::LsmError;
use crate::iterators::StorageIterator;
use std::sync::Arc;
use super::SsTable;
use vstd::prelude::*;

verus! {

/// A position in a table: at one of its entries, or past the last.
pub struct SsTableIterator {
    table: Arc<SsTable>,
    /// The position in the current block.
    blk_iter: BlockIterator,
    /// The index of the current block.
    blk_idx: usize,
}

impl SsTableIterator {
    /// The entries of the table walked over.
    pub closed spec fn source(&self) -> Seq<Entry> {
        self.table@
    }

    /// The table is well formed, the block iterator walks the current block,
    /// and it stands at an entry unless the table is exhausted.
    pub closed spec fn settled(&self) -> bool {
        let blocks = self.table.blocks();
        &&& self.table.wf()
        &&& self.blk_idx < blocks.len()
        &&& self.blk_iter.wf()
        &&& self.blk_iter.source() == blocks[self.blk_idx as int]
        &&& self.blk_iter.position() < self.blk_iter.source().len() || self.blk_idx
            == blocks.len() - 1
    }

    /// The entries still to come.
    pub closed spec fn rest(&self) -> Seq<Entry> {
        self.blk_iter.remaining() + concat_from(self.table.blocks(), self.blk_idx + 1)
    }

    /// An iterator at the first entry of `table`.
    pub fn create_and_seek_to_first(table: Arc<SsTable>) -> (r: Result<Self, LsmError>)
        requires
            table.wf(),
        ensures
            r matches Ok(it) && it.wf() && it.source() == table@ && it.remaining() == table@,
    {
        proof {
            table.lemma_wf();
        }
        let block = match table.read_block(0) {
            Ok(b) => b,
            Err(e) => {
                return Err(e);
            },
        };
        let blk_iter = BlockIterator::create_and_seek_to_first(block);
        proof {
            blk_iter.lemma_position();
            assert(blk_iter.source().skip(0) =~= blk_iter.source());
        }
        Ok(SsTableIterator { table, blk_iter, blk_idx: 0 })
    }

    /// Moves to the first entry of the table.
    pub fn seek_to_first(&mut self) -> (r: Result<(), LsmError>)
        requires
            old(self).wf(),
        ensures
            r is Ok,
            final(self).wf(),
            final(self).source() == old(self).source(),
            final(self).remaining() == final(self).source(),
    {
        proof {
            self.table.lemma_wf();
        }
        let block = match self.table.read_block(0) {
            Ok(b) => b,
            Err(e) => {
                return Err(e);
            },
        };
        let blk_iter = BlockIterator::create_and_seek_to_first(block);
        proof {
            blk_iter.lemma_position();
            assert(blk_iter.source().skip(0) =~= blk_iter.source());
        }
        self.blk_iter = blk_iter;
        self.blk_idx = 0;
        Ok(())
    }

    /// The block iterator and the block index at the first entry of `table`
    /// whose key is not before `key`.
    fn locate(table: &Arc<SsTable>, key: &[u8]) -> (r: Result<(BlockIterator, usize), LsmError>)
        requires
            table.wf(),
        ensures
            r matches Ok((bi, idx)) && {
                let blocks = table.blocks();
                &&& idx < blocks.len()
                &&& bi.wf()
                &&& bi.source() == blocks[idx as int]
                &&& bi.position() < bi.source().len() || idx == blocks.len() - 1
                &&& bi.remaining() + concat_from(blocks, idx + 1) == table@.skip(
                    lower_bound(table@, key@),
                )
            },
    {
        proof {
            table.lemma_wf();
        }
        let ghost blocks = table.blocks();
        let n: usize = table.num_of_blocks();
        let mut idx: usize = table.find_block_idx(key);
        let block = match table.read_block(idx) {
            Ok(b) => b,
            Err(e) => {
                return Err(e);
            },
        };
        let mut bi = BlockIterator::create_and_seek_to_key(block, key);
        proof {
            bi.lemma_position();
            lemma_seek_position(blocks, 0, idx as int, key@);
        }
        if !bi.is_valid() && idx + 1 < n {
            let ghost prev = bi.remaining();
            idx = idx + 1;
            let block = match table.read_block(idx) {
                Ok(b) => b,
                Err(e) => {
                    return Err(e);
                },
            };
            bi = BlockIterator::create_and_seek_to_first(block);
            proof {
                bi.lemma_position();
                assert(bi.source().len() > 0);
                assert(bi.source().skip(0) =~= bi.source());
                assert(prev + concat_from(blocks, idx as int) =~= concat_from(blocks, idx as int));
            }
        }
        Ok((bi, idx))
    }

    /// An iterator at the first entry of `table` whose key is not before `key`.
    pub fn create_and_seek_to_key(table: Arc<SsTable>, key: &[u8]) -> (r: Result<Self, LsmError>)
        requires
            table.wf(),
        ensures
            r matches Ok(it) && it.wf() && it.source() == table@ && it.remaining() == table@.skip(
                lower_bound(table@, key@),
            ),
    {
        match Self::locate(&table, key) {
            Ok((blk_iter, blk_idx)) => Ok(SsTableIterator { table, blk_iter, blk_idx }),
            Err(e) => Err(e),
        }
    }

    /// Moves to the first entry whose key is not before `key`, or past the
    /// last entry where there is none.
    pub fn seek_to_key(&mut self, key: &[u8]) -> (r: Result<(), LsmError>)
        requires
            old(self).wf(),
        ensures
            r is Ok,
            final(self).wf(),
            final(self).source() == old(self).source(),
            final(self).remaining() == final(self).source().skip(
                lower_bound(final(self).source(), key@),
            ),
    {
        match Self::locate(&self.table, key) {
            Ok((blk_iter, blk_idx)) => {
                self.blk_iter = blk_iter;
                self.blk_idx = blk_idx;
                Ok(())
            },
            Err(e) => Err(e),
        }
    }
}

impl StorageIterator for SsTableIterator {
    open spec fn wf(&self) -> bool {
        self.settled()
    }

    open spec fn remaining(&self) -> Seq<Entry> {
        self.rest()
    }

    open spec fn can_fail() -> bool {
        false
    }

    fn key(&self) -> (r: &[u8]) {
        proof {
            self.blk_iter.lemma_position();
            self.lemma_current();
        }
        self.blk_iter.key()
    }

    fn value(&self) -> (r: &[u8]) {
        proof {
            self.blk_iter.lemma_position();
            self.lemma_current();
        }
        self.blk_iter.value()
    }

    fn is_valid(&self) -> (r: bool) {
        proof {
            self.blk_iter.lemma_position();
            self.lemma_current();
        }
        self.blk_iter.is_valid()
    }

    fn next(&mut self) -> (r: Result<(), LsmError>) {
        proof {
            self.blk_iter.lemma_position();
            self.lemma_current();
            self.table.lemma_wf();
        }
        let ghost blocks = self.table.blocks();
        let ghost before = self.blk_iter.remaining();
        let ghost tail = concat_from(blocks, self.blk_idx + 1);
        let n: usize = self.table.num_of_blocks();
        self.blk_iter.next();
        proof {
            self.blk_iter.lemma_position();
            if before.len() > 0 {
                assert(self.blk_iter.remaining() =~= before.skip(1));
                assert((before + tail).skip(1) =~= before.skip(1) + tail);
            } else {
                assert(tail =~= Seq::<Entry>::empty());
                assert(before + tail =~= before);
            }
        }
        if !self.blk_iter.is_valid() && self.blk_idx + 1 < n {
            let ghost prev = self.blk_iter.remaining();
            self.blk_idx = self.blk_idx + 1;
            let block = match self.table.read_block(self.blk_idx) {
                Ok(b) => b,
                Err(e) => {
                    return Err(e);
                },
            };
            self.blk_iter = BlockIterator::create_and_seek_to_first(block);
            proof {
                self.blk_iter.lemma_position();
                assert(self.blk_iter.source().len() > 0);
                assert(self.blk_iter.source().skip(0) =~= self.blk_iter.source());
                assert(prev + tail =~= tail);
            }
        }
        Ok(())
    }

    /// An iterator that wraps no other counts as one.
    open spec fn active_iterators(&self) -> usize {
        1
    }

    fn num_active_iterators(&self) -> (r: usize) {
        1
    }
}

impl SsTableIterator {
    /// While an entry remains, the block iterator stands at it.
    proof fn lemma_current(&self)
        requires
            self.settled(),
            0 <= self.blk_iter.position() <= self.blk_iter.source().len(),
        ensures
            self.rest().len() > 0 <==> self.blk_iter.position() < self.blk_iter.source().len(),
            self.rest().len() > 0 ==> self.rest()[0] == self.blk_iter.source()[self.blk_iter.position()],
    {
        let blocks = self.table.blocks();
        if self.blk_iter.position() >= self.blk_iter.source().len() {
            assert(concat_from(blocks, self.blk_idx + 1) =~= Seq::<Entry>::empty());
        }
    }
}

} // verus!
