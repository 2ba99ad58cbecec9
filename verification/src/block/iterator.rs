//! Walks the entries of a block, forward and by key.

use crate::entries::{lemma_lower_bound_unique, lower_bound, Entry};
use crate::key::{key_le, key_less, key_lt, lemma_key_lt_total, lemma_key_lt_transitive};
use std::sync::Arc;
use super::{
    block_first_key, entry_end, entry_key, entry_ok, entry_value_start, lemma_block_keys_sorted,
    read_key, read_u16, Block,
};
use vstd::prelude::*;
use vstd::slice::slice_subrange;

verus! {

/// A position in a block: at one of its entries, or past the last.
pub struct BlockIterator {
    /// The block walked over.
    block: Arc<Block>,
    /// The key of the current entry; empty past the last entry.
    key: Vec<u8>,
    /// Where the value of the current entry lies in the block's data.
    value_range: (usize, usize),
    /// The index of the current entry.
    idx: usize,
    /// The first key of the block.
    first_key: Vec<u8>,
}

impl BlockIterator {
    /// The entries of the block walked over.
    pub closed spec fn source(&self) -> Seq<Entry> {
        self.block@
    }

    /// The index of the current entry; the number of entries when past the last.
    pub closed spec fn position(&self) -> int {
        self.idx as int
    }

    /// The current entry and those after it.
    pub open spec fn remaining(&self) -> Seq<Entry> {
        self.source().skip(self.position())
    }

    /// The block is well formed, and the iterator holds the key and the value
    /// range of the entry it stands at.
    pub closed spec fn wf(&self) -> bool {
        let data = self.block.data@;
        let offsets = self.block.offsets@;
        &&& self.block.wf()
        &&& self.idx <= offsets.len()
        &&& offsets.len() > 0 ==> self.first_key@ == block_first_key(data)
        &&& self.idx < offsets.len() ==> {
            &&& self.key@ == entry_key(data, offsets[self.idx as int] as int)
            &&& self.value_range.0 == entry_value_start(data, offsets[self.idx as int] as int)
            &&& self.value_range.1 == entry_end(data, offsets[self.idx as int] as int)
        }
        &&& self.idx >= offsets.len() ==> self.key@.len() == 0 && self.value_range == (
            0usize,
            0usize,
        )
    }

    /// A well-formed iterator stands within its block, or right past its end.
    pub proof fn lemma_position(&self)
        requires
            self.wf(),
        ensures
            0 <= self.position() <= self.source().len(),
            crate::entries::sorted(self.source()),
            crate::entries::keys_bounded(self.source()),
    {
        super::lemma_block_entries_sorted(self.block.data@, self.block.offsets@);
    }

    fn new(block: Arc<Block>) -> (r: BlockIterator)
        requires
            block.wf(),
        ensures
            r.block == block,
            r.block.offsets@.len() > 0 ==> r.first_key@ == block_first_key(r.block.data@),
            r.idx == 0,
            r.key@.len() == 0,
            r.value_range == (0usize, 0usize),
    {
        let mut first_key: Vec<u8> = Vec::new();
        if block.offsets.len() > 0 {
            assert(entry_ok(block.data@, block.offsets@[0] as int));
            first_key = read_key(block.data.as_slice(), first_key.as_slice(), 0);
            assert(first_key@ =~= block_first_key(block.data@));
        }
        BlockIterator { block, key: Vec::new(), value_range: (0, 0), idx: 0, first_key }
    }

    /// An iterator at the first entry of `block`.
    pub fn create_and_seek_to_first(block: Arc<Block>) -> (r: BlockIterator)
        requires
            block.wf(),
        ensures
            r.wf(),
            r.source() == block@,
            r.position() == 0,
    {
        let mut iter = Self::new(block);
        iter.seek_to(0);
        iter
    }

    /// An iterator at the first entry of `block` whose key is not before `key`.
    pub fn create_and_seek_to_key(block: Arc<Block>, key: &[u8]) -> (r: BlockIterator)
        requires
            block.wf(),
        ensures
            r.wf(),
            r.source() == block@,
            r.position() == lower_bound(block@, key@),
    {
        let mut iter = Self::new(block);
        iter.seek_to(0);
        iter.seek_to_key(key);
        iter
    }

    /// The key of the current entry; empty past the last entry.
    pub fn key(&self) -> (r: &[u8])
        requires
            self.wf(),
        ensures
            r@ == if self.position() < self.source().len() {
                self.source()[self.position()].0
            } else {
                Seq::<u8>::empty()
            },
    {
        proof {
            if self.idx >= self.block.offsets@.len() {
                assert(self.key@ =~= Seq::<u8>::empty());
            }
        }
        self.key.as_slice()
    }

    /// The value of the current entry; empty past the last entry.
    pub fn value(&self) -> (r: &[u8])
        requires
            self.wf(),
        ensures
            r@ == if self.position() < self.source().len() {
                self.source()[self.position()].1
            } else {
                Seq::<u8>::empty()
            },
    {
        proof {
            if self.idx < self.block.offsets@.len() {
                assert(entry_ok(self.block.data@, self.block.offsets@[self.idx as int] as int));
            }
        }
        let r = slice_subrange(self.block.data.as_slice(), self.value_range.0, self.value_range.1);
        proof {
            if self.idx >= self.block.offsets@.len() {
                assert(r@ =~= Seq::<u8>::empty());
            }
        }
        r
    }

    /// Tells whether the iterator stands at an entry.
    pub fn is_valid(&self) -> (r: bool)
        requires
            self.wf(),
        ensures
            r == (self.position() < self.source().len()),
    {
        proof {
            if self.idx < self.block.offsets@.len() {
                assert(entry_ok(self.block.data@, self.block.offsets@[self.idx as int] as int));
                assert(entry_ok(self.block.data@, self.block.offsets@[0] as int));
            }
        }
        !self.key.is_empty()
    }

    /// Moves to the first entry.
    pub fn seek_to_first(&mut self)
        requires
            old(self).wf(),
        ensures
            final(self).wf(),
            final(self).source() == old(self).source(),
            final(self).position() == 0,
    {
        self.seek_to(0);
    }

    /// Moves to the entry with index `idx`, or past the last entry.
    fn seek_to(&mut self, idx: usize)
        requires
            old(self).block.wf(),
            old(self).block.offsets@.len() > 0 ==> old(self).first_key@ == block_first_key(
                old(self).block.data@,
            ),
            idx <= old(self).block.offsets@.len(),
        ensures
            final(self).wf(),
            final(self).block == old(self).block,
            final(self).first_key == old(self).first_key,
            final(self).idx == idx,
    {
        self.idx = idx;
        if idx >= self.block.offsets.len() {
            self.key = Vec::new();
            self.value_range = (0, 0);
            return;
        }
        let off: usize = self.block.offsets[idx] as usize;
        assert(entry_ok(self.block.data@, self.block.offsets@[idx as int] as int));
        assert(entry_ok(self.block.data@, self.block.offsets@[0] as int));
        let data: &[u8] = self.block.data.as_slice();
        let len: usize = data.len();
        let rest_len: usize = read_u16(data, off + 2) as usize;
        let value_len: usize = read_u16(data, off + 4 + rest_len) as usize;
        let key = read_key(data, self.first_key.as_slice(), off);
        self.key = key;
        self.value_range = (off + 6 + rest_len, off + 6 + rest_len + value_len);
    }

    /// Moves to the next entry; past the last entry the iterator stays where it is.
    pub fn next(&mut self)
        requires
            old(self).wf(),
        ensures
            final(self).wf(),
            final(self).source() == old(self).source(),
            final(self).position() == if old(self).position() < old(self).source().len() {
                old(self).position() + 1
            } else {
                old(self).position()
            },
    {
        if self.idx >= self.block.offsets.len() {
            return;
        }
        let next_idx: usize = self.idx + 1;
        self.seek_to(next_idx);
    }

    /// Moves to the first entry whose key is not before `key`, or past the
    /// last entry where there is none.
    pub fn seek_to_key(&mut self, key: &[u8])
        requires
            old(self).wf(),
        ensures
            final(self).wf(),
            final(self).source() == old(self).source(),
            final(self).position() == lower_bound(final(self).source(), key@),
            forall|j: int|
                0 <= j < final(self).position() ==> key_lt(
                    #[trigger] final(self).source()[j].0,
                    key@,
                ),
            forall|j: int|
                final(self).position() <= j < final(self).source().len() ==> key_le(
                    key@,
                    #[trigger] final(self).source()[j].0,
                ),
    {
        let n: usize = self.block.offsets.len();
        let ghost data = self.block.data@;
        let ghost offsets = self.block.offsets@;
        let ghost entries = self.block@;
        let mut left: usize = 0;
        let mut right: usize = n;
        while left < right
            invariant
                self.block.wf(),
                data == self.block.data@,
                offsets == self.block.offsets@,
                entries == self.block@,
                n == offsets.len(),
                n > 0 ==> self.first_key@ == block_first_key(data),
                left <= right <= n,
                forall|j: int| 0 <= j < left ==> key_lt(#[trigger] entries[j].0, key@),
                forall|j: int| right <= j < n ==> !key_lt(#[trigger] entries[j].0, key@),
            decreases right - left,
        {
            let mid: usize = left + (right - left) / 2;
            let entry_offset: usize = self.block.offsets[mid] as usize;
            assert(entry_ok(data, offsets[mid as int] as int));
            assert(entry_ok(data, offsets[0] as int));
            let mid_key = read_key(self.block.data.as_slice(), self.first_key.as_slice(), entry_offset);
            assert(mid_key@ == entries[mid as int].0);
            if key_less(mid_key.as_slice(), key) {
                proof {
                    assert forall|j: int| 0 <= j < mid + 1 implies key_lt(
                        #[trigger] entries[j].0,
                        key@,
                    ) by {
                        if j < mid {
                            lemma_block_keys_sorted(data, offsets, j, mid as int);
                            lemma_key_lt_transitive(entries[j].0, entries[mid as int].0, key@);
                        }
                    }
                }
                left = mid + 1;
            } else {
                proof {
                    assert forall|j: int| mid <= j < n implies !key_lt(
                        #[trigger] entries[j].0,
                        key@,
                    ) by {
                        if j > mid {
                            lemma_block_keys_sorted(data, offsets, mid as int, j);
                            if key_lt(entries[j].0, key@) {
                                lemma_key_lt_transitive(entries[mid as int].0, entries[j].0, key@);
                            }
                        }
                    }
                }
                right = mid;
            }
        }
        proof {
            lemma_lower_bound_unique(entries, key@, left as int);
            assert forall|j: int| left <= j < n implies key_le(key@, #[trigger] entries[j].0) by {
                lemma_key_lt_total(entries[j].0, key@);
            }
        }
        self.seek_to(left);
    }
}

} // verus!
