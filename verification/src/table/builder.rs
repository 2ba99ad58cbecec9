//! Builds a table from entries added in key order.

use crate::block::{
    decoded_entries, lemma_block_roundtrip, push_range, valid_block_bytes, FIELD_MAX,
};
use crate::block::builder::{block_accepts, block_len, BlockBuilder};
use crate::buffer::{buffer_as_slice, slice_as_bytes};
use crate::entries::{concat, keys_bounded, lemma_concat_last, lemma_concat_push, sorted, Entry};
use crate::error::LsmError;
use crate::key::{key_lt, key_to_vec};
use crate::table::bloom::{fingerprint, hashable, try_fingerprint, Bloom};
use super::{
    block_ok, block_slice, lemma_table_blocks, meta_fits, metas_view, push_u32, table_blocks,
    table_bytes, table_wf, BlockMeta, FileObject, MetaView, SsTable, OFFSET_MAX,
};
use vstd::prelude::*;

verus! {

/// The number of bits that the filter of a table has for each key.
pub const BLOOM_BITS_PER_KEY: usize = 10;

/// The blocks that a builder has closed and the entries of the block it is filling.
pub struct Layout {
    pub closed: Seq<Seq<Entry>>,
    pub pending: Seq<Entry>,
}

/// The layout after the block being filled is closed; with no entries in it,
/// nothing changes.
pub open spec fn layout_split(l: Layout) -> Layout {
    if l.pending.len() == 0 {
        l
    } else {
        Layout { closed: l.closed.push(l.pending), pending: Seq::empty() }
    }
}

/// The layout after an entry is added: it goes into the block being filled
/// if that block takes it, else that block is closed and the entry starts the next.
pub open spec fn layout_add(l: Layout, block_size: int, e: Entry) -> Layout {
    if block_accepts(l.pending, block_size, e.0, e.1) {
        Layout { closed: l.closed, pending: l.pending.push(e) }
    } else {
        Layout { closed: l.closed.push(l.pending), pending: seq![e] }
    }
}

/// The layout after the entries are added in order.
pub open spec fn layout_extend(l: Layout, block_size: int, entries: Seq<Entry>) -> Layout
    decreases entries.len(),
{
    if entries.len() == 0 {
        l
    } else {
        layout_add(
            layout_extend(l, block_size, entries.drop_last()),
            block_size,
            entries.last(),
        )
    }
}

/// The layout without blocks.
pub open spec fn layout_empty() -> Layout {
    Layout { closed: Seq::empty(), pending: Seq::empty() }
}

/// The layout that a new builder has after `entries` are added in order.
pub open spec fn layout_of(entries: Seq<Entry>, block_size: int) -> Layout {
    layout_extend(layout_empty(), block_size, entries)
}

/// The sizes of the encoded forms of the blocks, added up.
pub open spec fn blocks_len(blocks: Seq<Seq<Entry>>) -> int
    decreases blocks.len(),
{
    if blocks.len() == 0 {
        0
    } else {
        blocks_len(blocks.drop_last()) + block_len(blocks.last())
    }
}

/// A table of this layout can be encoded: it has at most 65535 blocks, and
/// its data region is shorter than 4 GiB, so that every count and offset fits
/// its field.
pub open spec fn layout_encodable(l: Layout) -> bool {
    let all = layout_split(l).closed;
    all.len() <= FIELD_MAX && blocks_len(all) <= OFFSET_MAX
}

/// All entries of a layout, in order.
pub open spec fn layout_entries(l: Layout) -> Seq<Entry> {
    concat(l.closed) + l.pending
}

/// Adding an entry to a layout adds it to its entries, and closing the block
/// being filled leaves the entries as they are.
pub proof fn lemma_layout_entries(l: Layout, block_size: int, e: Entry)
    ensures
        layout_entries(layout_add(l, block_size, e)) == layout_entries(l).push(e),
        layout_entries(layout_split(l)) == layout_entries(l),
{
    lemma_concat_push(l.closed, l.pending, 0);
    assert(layout_entries(layout_add(l, block_size, e)) =~= layout_entries(l).push(e));
    assert(layout_entries(layout_split(l)) =~= layout_entries(l));
}

/// The entries of a layout after entries are added are its entries followed by those.
pub proof fn lemma_layout_extend(l: Layout, block_size: int, entries: Seq<Entry>)
    ensures
        layout_entries(layout_extend(l, block_size, entries)) == layout_entries(l) + entries,
    decreases entries.len(),
{
    if entries.len() == 0 {
        assert(layout_entries(l) + entries =~= layout_entries(l));
    } else {
        lemma_layout_extend(l, block_size, entries.drop_last());
        lemma_layout_entries(
            layout_extend(l, block_size, entries.drop_last()),
            block_size,
            entries.last(),
        );
        assert((layout_entries(l) + entries.drop_last()).push(entries.last()) =~= layout_entries(l)
            + entries);
    }
}

/// Appending bytes to the data region, and an index entry that starts where
/// the region ended, leaves the encoded form of every block as it was.
proof fn lemma_slices_stable(data: Seq<u8>, metas: Seq<MetaView>, enc: Seq<u8>, m: MetaView, i: int)
    requires
        0 <= i < metas.len(),
        m.offset == data.len(),
        0 <= metas[i].offset <= super::block_stop(metas, i, data.len() as int) <= data.len(),
    ensures
        block_slice(data + enc, metas.push(m), i) == block_slice(data, metas, i),
        super::block_stop(metas.push(m), i, (data + enc).len() as int) == super::block_stop(
            metas,
            i,
            data.len() as int,
        ),
{
    let ms = metas.push(m);
    assert(ms[i] == metas[i]);
    if i + 1 < metas.len() {
        assert(ms[i + 1] == metas[i + 1]);
    }
    assert(block_slice(data + enc, ms, i) =~= block_slice(data, metas, i));
}

/// A table with one more block at the end of its data region is a table, and
/// its blocks are those of before and the new one.
#[verifier::rlimit(40)]
pub proof fn lemma_table_append_block(
    data: Seq<u8>,
    metas: Seq<MetaView>,
    enc: Seq<u8>,
    entries: Seq<Entry>,
    m: MetaView,
)
    requires
        metas.len() == 0 ==> data.len() == 0,
        metas.len() > 0 ==> table_wf(data, metas),
        enc.len() > 0,
        valid_block_bytes(enc),
        decoded_entries(enc) == entries,
        entries.len() > 0,
        m.offset == data.len(),
        m.first_key == entries[0].0,
        m.last_key == entries.last().0,
        metas.len() > 0 ==> key_lt(metas.last().last_key, m.first_key),
    ensures
        table_wf(data + enc, metas.push(m)),
        table_blocks(data + enc, metas.push(m)) == table_blocks(data, metas).push(entries),
{
    let ext = data + enc;
    let ms = metas.push(m);
    let n = metas.len() as int;
    assert(block_slice(ext, ms, n) =~= enc);
    assert(block_ok(ext, ms, n));
    assert forall|i: int| 0 <= i < n implies #[trigger] block_ok(ext, ms, i) by {
        assert(block_ok(data, metas, i));
        lemma_slices_stable(data, metas, enc, m, i);
        assert(ms[i] == metas[i]);
        if i + 1 < n {
            assert(ms[i + 1] == metas[i + 1]);
        }
    }
    assert(ms[0].offset == 0) by {
        if n > 0 {
            assert(ms[0] == metas[0]);
        }
    }
    let new_blocks = table_blocks(ext, ms);
    let old_blocks = table_blocks(data, metas);
    assert forall|i: int| 0 <= i < new_blocks.len() implies new_blocks[i] == old_blocks.push(
        entries,
    )[i] by {
        if i < n {
            assert(block_ok(data, metas, i));
            lemma_slices_stable(data, metas, enc, m, i);
        }
    }
    assert(new_blocks =~= old_blocks.push(entries));
}

/// What closing a block does to a builder: the data region and the index
/// with the block added form a table whose blocks are those of before and the
/// new one, and the size of the data region is that of its blocks.
proof fn lemma_after_split(
    data: Seq<u8>,
    metas: Seq<MetaView>,
    pending: Seq<Entry>,
    enc: Seq<u8>,
    m: MetaView,
)
    requires
        metas.len() == 0 ==> data.len() == 0,
        metas.len() > 0 ==> table_wf(data, metas),
        data.len() == blocks_len(table_blocks(data, metas)),
        pending.len() > 0,
        valid_block_bytes(enc),
        decoded_entries(enc) == pending,
        enc.len() == block_len(pending),
        enc.len() > 0,
        m.offset == data.len(),
        m.first_key == pending[0].0,
        m.last_key == pending.last().0,
        metas.len() > 0 ==> key_lt(metas.last().last_key, m.first_key),
    ensures
        table_wf(data + enc, metas.push(m)),
        table_blocks(data + enc, metas.push(m)) == table_blocks(data, metas).push(pending),
        (data + enc).len() == blocks_len(table_blocks(data + enc, metas.push(m))),
        metas.push(m)[0].first_key == if metas.len() > 0 {
            metas[0].first_key
        } else {
            m.first_key
        },
        metas.push(m).last().last_key == pending.last().0,
        concat(table_blocks(data + enc, metas.push(m))) == concat(table_blocks(data, metas))
            + pending,
{
    lemma_table_append_block(data, metas, enc, pending, m);
    let closed = table_blocks(data, metas);
    assert(closed.push(pending).drop_last() =~= closed);
    lemma_concat_push(closed, pending, 0);
    if metas.len() > 0 {
        assert(metas.push(m)[0] == metas[0]);
    }
}

/// The hashes hold the fingerprint of every key of the entries whose
/// fingerprint can be taken.
pub open spec fn hashes_cover(hashes: Seq<u32>, entries: Seq<Entry>) -> bool {
    forall|i: int|
        0 <= i < entries.len() && hashable((#[trigger] entries[i]).0) ==> hashes.contains(
            fingerprint(entries[i].0),
        )
}

/// Hashes that cover the entries, with the fingerprint of one more key
/// added if it can be taken, cover the entries with that key added.
proof fn lemma_cover_push(before: Seq<u32>, after: Seq<u32>, entries: Seq<Entry>, e: Entry)
    requires
        hashes_cover(before, entries),
        forall|h: u32| before.contains(h) ==> after.contains(h),
        hashable(e.0) ==> after.contains(fingerprint(e.0)),
    ensures
        hashes_cover(after, entries.push(e)),
{
    let ext = entries.push(e);
    assert forall|i: int| 0 <= i < ext.len() && hashable((#[trigger] ext[i]).0) implies after.contains(
        fingerprint(ext[i].0),
    ) by {
        if i < entries.len() {
            assert(ext[i] == entries[i]);
            assert(before.contains(fingerprint(entries[i].0)));
        }
    }
}

/// Adds the fingerprint of the key to the hashes, if it can be taken.
fn note_key(hashes: &mut Vec<u32>, key: &[u8])
    ensures
        forall|h: u32| old(hashes)@.contains(h) ==> final(hashes)@.contains(h),
        hashable(key@) ==> final(hashes)@.contains(fingerprint(key@)),
{
    match try_fingerprint(key) {
        Some(hash) => {
            hashes.push(hash);
            proof {
                assert(hashes@[old(hashes)@.len() as int] == hash);
                assert forall|h: u32| old(hashes)@.contains(h) implies hashes@.contains(h) by {
                    let j = choose|j: int| 0 <= j < old(hashes)@.len() && old(hashes)@[j] == h;
                    assert(hashes@[j] == h);
                }
            }
        },
        None => {},
    }
}

/// Builds a table from entries added in key order.
pub struct SsTableBuilder {
    /// The block being filled.
    builder: BlockBuilder,
    /// The first key of the first closed block; empty before a block is closed.
    first_key: Vec<u8>,
    /// The last key added; empty before.
    last_key: Vec<u8>,
    /// The closed blocks, encoded, end to end.
    data: Vec<u8>,
    /// Where each closed block starts, and its first and last key.
    pub meta: Vec<BlockMeta>,
    block_size: usize,
    /// The fingerprint of each key added whose fingerprint can be taken.
    key_hashes: Vec<u32>,
}

impl View for SsTableBuilder {
    type V = Seq<Entry>;

    /// The entries added so far, in order.
    open spec fn view(&self) -> Seq<Entry> {
        layout_entries(self.layout())
    }
}

impl SsTableBuilder {
    /// The closed blocks and the entries of the block being filled.
    pub closed spec fn layout(&self) -> Layout {
        Layout {
            closed: table_blocks(self.data@, metas_view(self.meta@)),
            pending: self.builder@,
        }
    }

    /// The size that an encoded block should not exceed.
    pub closed spec fn limit(&self) -> int {
        self.block_size as int
    }

    /// The closed blocks form the data region of a table, the block being
    /// filled continues it in key order, and keys and values fit their fields.
    pub closed spec fn wf(&self) -> bool {
        let metas = metas_view(self.meta@);
        &&& self.builder.wf()
        &&& self.builder.limit() == self.block_size
        &&& metas.len() == 0 ==> self.data@.len() == 0 && self.first_key@.len() == 0
        &&& metas.len() > 0 ==> table_wf(self.data@, metas) && self.first_key@
            == metas[0].first_key
        &&& self.data@.len() == blocks_len(table_blocks(self.data@, metas))
        &&& metas.len() > 0 && self.builder@.len() > 0 ==> key_lt(
            metas.last().last_key,
            self.builder@[0].0,
        )
        &&& self@.len() == 0 ==> self.last_key@.len() == 0
        &&& self@.len() > 0 ==> self.last_key@ == self@.last().0
        &&& hashes_cover(self.key_hashes@, self@)
    }

    /// The encoded form of the block being filled.
    pub closed spec fn pending_bytes(&self) -> Seq<u8> {
        self.builder.encoded()
    }

    /// The encoded form of the block being filled decodes to the entries
    /// of that block.
    pub proof fn lemma_pending(&self)
        requires
            self.wf(),
        ensures
            valid_block_bytes(self.pending_bytes()),
            decoded_entries(self.pending_bytes()) == self.layout().pending,
    {
        self.builder.lemma_encoded();
    }

    /// The data region once the block being filled is closed: with that
    /// block, encoded, at its end.
    pub open spec fn closed_data(&self) -> Seq<u8> {
        if self.layout().pending.len() == 0 {
            self.data_region()
        } else {
            self.data_region() + self.pending_bytes()
        }
    }

    /// The index once the block being filled is closed: with one more entry,
    /// which holds where the data region ended and the first and last key of
    /// the block.
    pub open spec fn closed_index(&self) -> Seq<MetaView> {
        if self.layout().pending.len() == 0 {
            self.index()
        } else {
            self.index().push(
                MetaView {
                    offset: self.data_region().len() as int,
                    first_key: self.layout().pending[0].0,
                    last_key: self.layout().pending.last().0,
                },
            )
        }
    }

    /// What a well-formed builder holds: strictly increasing keys, in blocks
    /// that all have entries.
    pub proof fn lemma_wf(&self)
        requires
            self.wf(),
        ensures
            sorted(self@),
            keys_bounded(self@),
            forall|i: int|
                0 <= i < self.layout().closed.len() ==> (#[trigger] self.layout().closed[i]).len()
                    > 0,
            self.layout().closed.len() > 0 ==> self@.len() > 0,
    {
        let metas = metas_view(self.meta@);
        let closed = table_blocks(self.data@, metas);
        self.builder.lemma_wf();
        if metas.len() > 0 {
            lemma_table_blocks(self.data@, metas);
            assert forall|i: int| 0 <= i < closed.len() implies (#[trigger] closed[i]).len() > 0 by {
                assert(block_ok(self.data@, metas, i));
            }
            lemma_concat_last(closed, 0);
            assert(block_ok(self.data@, metas, metas.len() - 1));
            crate::entries::lemma_sorted_concat(concat(closed), self.builder@);
            let a = concat(closed);
            let b = self.builder@;
            assert forall|x: int| 0 <= x < (a + b).len() implies 1 <= (#[trigger] (a + b)[x]).0.len()
                <= 0xFFFF by {
                if x >= a.len() {
                    assert((a + b)[x] == b[x - a.len()]);
                } else {
                    assert((a + b)[x] == a[x]);
                }
            }
        } else {
            assert(concat(closed) =~= Seq::<Entry>::empty());
            assert(self@ =~= self.builder@);
        }
    }

    /// A builder without entries for blocks of at most `block_size` bytes.
    pub fn new(block_size: usize) -> (r: SsTableBuilder)
        ensures
            r.wf(),
            r.limit() == block_size,
            r.layout() == layout_empty(),
            r@.len() == 0,
            r.data_region().len() == 0,
            r.index().len() == 0,
    {
        let r = SsTableBuilder {
            builder: BlockBuilder::new(block_size),
            first_key: Vec::new(),
            last_key: Vec::new(),
            data: Vec::new(),
            meta: Vec::new(),
            block_size,
            key_hashes: Vec::new(),
        };
        proof {
            assert(table_blocks(r.data@, metas_view(r.meta@)) =~= Seq::<Seq<Entry>>::empty());
            assert(r.builder@ =~= Seq::<Entry>::empty());
            assert(concat(Seq::<Seq<Entry>>::empty()) =~= Seq::<Entry>::empty());
            assert(r@ =~= Seq::<Entry>::empty());
        }
        r
    }

    /// Closes the block being filled: it is encoded and appended to the data
    /// region, and the index gets its offset and its first and last key. With
    /// no entries in the block, nothing changes.
    #[verifier::rlimit(40)]
    pub fn split_block(&mut self)
        requires
            old(self).wf(),
        ensures
            final(self).wf(),
            final(self).limit() == old(self).limit(),
            final(self).layout() == layout_split(old(self).layout()),
            final(self)@ == old(self)@,
            final(self).data_region() == old(self).closed_data(),
            final(self).index() == old(self).closed_index(),
    {
        proof {
            self.lemma_wf();
            lemma_layout_entries(self.layout(), self.block_size as int, arbitrary());
        }
        if self.builder.is_empty() {
            assert(self.builder@ =~= Seq::<Entry>::empty());
            return;
        }
        let ghost old_metas = metas_view(self.meta@);
        let ghost old_data = self.data@;
        let ghost old_view = self@;
        let mut old_block_builder = BlockBuilder::new(self.block_size);
        std::mem::swap(&mut self.builder, &mut old_block_builder);
        let ghost pending = old_block_builder@;
        let first_key = old_block_builder.first_key();
        let last_key = old_block_builder.last_key();
        if self.meta.len() == 0 {
            self.first_key = key_to_vec(first_key.as_slice());
        }
        let m = BlockMeta { offset: self.data.len(), first_key, last_key };
        let ghost mv = m@;
        self.meta.push(m);
        let block = old_block_builder.build();
        let encoded = block.encode();
        let bytes = buffer_as_slice(&encoded);
        push_range(&mut self.data, bytes, 0, bytes.len());
        proof {
            assert(bytes@.subrange(0, bytes@.len() as int) =~= bytes@);
            assert(metas_view(self.meta@) =~= old_metas.push(mv));
            lemma_block_roundtrip(block);
            lemma_after_split(old_data, old_metas, pending, block.encoded(), mv);
            assert(self.builder@ =~= Seq::<Entry>::empty());
            assert(self@ =~= old_view);
            if pending.len() > 0 {
                assert(self.data@ =~= old_data + block.encoded());
            } else {
                assert(self.data@ == old_data);
            }
        }
    }

    /// Where the last entry added is recorded.
    proof fn lemma_last(&self)
        requires
            self.wf(),
            self@.len() > 0,
        ensures
            self.builder@.len() > 0 ==> self@.last() == self.builder@.last(),
            self.builder@.len() == 0 ==> metas_view(self.meta@).len() > 0 && self@.last().0
                == metas_view(self.meta@).last().last_key,
    {
        let metas = metas_view(self.meta@);
        let closed = table_blocks(self.data@, metas);
        self.lemma_wf();
        if self.builder@.len() == 0 {
            assert(self@ =~= concat(closed));
            if closed.len() == 0 {
                assert(concat(closed) =~= Seq::<Entry>::empty());
            }
            lemma_concat_last(closed, 0);
            assert(block_ok(self.data@, metas, metas.len() - 1));
        }
    }

    /// Adds an entry at the end. Where the block being filled does not take
    /// it, that block is closed and the entry starts the next: the data region
    /// and the index then get the closed block.
    #[verifier::rlimit(60)]
    pub fn add(&mut self, key: &[u8], value: &[u8])
        requires
            old(self).wf(),
            1 <= key@.len() <= FIELD_MAX,
            value@.len() <= FIELD_MAX,
            old(self)@.len() > 0 ==> key_lt(old(self)@.last().0, key@),
        ensures
            final(self).wf(),
            final(self).limit() == old(self).limit(),
            final(self).layout() == layout_add(
                old(self).layout(),
                old(self).limit(),
                (key@, value@),
            ),
            final(self)@ == old(self)@.push((key@, value@)),
            final(self).data_region() == if block_accepts(
                old(self).layout().pending,
                old(self).limit(),
                key@,
                value@,
            ) {
                old(self).data_region()
            } else {
                old(self).closed_data()
            },
            final(self).index() == if block_accepts(
                old(self).layout().pending,
                old(self).limit(),
                key@,
                value@,
            ) {
                old(self).index()
            } else {
                old(self).closed_index()
            },
    {
        proof {
            self.lemma_wf();
            lemma_layout_entries(self.layout(), self.block_size as int, (key@, value@));
            if self@.len() > 0 {
                self.lemma_last();
            } else {
                assert(self.builder@.len() == 0);
            }
        }
        if !self.builder.add(key, value) {
            self.split_block();
            proof {
                self.lemma_last();
                assert(hashes_cover(self.key_hashes@, old(self)@));
            }
            let success = self.builder.add(key, value);
            assert(success);
            proof {
                assert(self.builder@ =~= seq![(key@, value@)]);
            }
        }
        self.last_key = key_to_vec(key);
        let ghost hashes = self.key_hashes@;
        note_key(&mut self.key_hashes, key);
        proof {
            lemma_cover_push(hashes, self.key_hashes@, old(self)@, (key@, value@));
        }
    }

    /// The index built so far.
    pub fn block_meta(&self) -> (r: &Vec<BlockMeta>)
        ensures
            metas_view(r@) == self.index(),
    {
        &self.meta
    }

    /// The size of the data region so far: of the closed blocks, encoded.
    pub fn estimated_size(&self) -> (r: usize)
        requires
            self.wf(),
        ensures
            r == blocks_len(self.layout().closed),
            r == self.data_region().len(),
    {
        self.data.len()
    }

    /// Tells whether no entry has been added.
    pub fn is_empty(&self) -> (r: bool)
        requires
            self.wf(),
        ensures
            r == (self@.len() == 0),
    {
        proof {
            self.lemma_wf();
        }
        self.meta.len() == 0 && self.builder.is_empty()
    }
}

impl SsTableBuilder {
    /// The data region built so far: the closed blocks, encoded, end to end.
    pub closed spec fn data_region(&self) -> Seq<u8> {
        self.data@
    }

    /// The index built so far: one entry for each closed block.
    pub closed spec fn index(&self) -> Seq<MetaView> {
        metas_view(self.meta@)
    }

    /// Closes the block being filled and gives the encoded table: the data
    /// region, the index, and where the index starts. A table with more than
    /// 65535 blocks or a data region of 4 GiB or more cannot be encoded.
    #[verifier::rlimit(40)]
    pub fn encode(&mut self) -> (r: Result<Vec<u8>, LsmError>)
        requires
            old(self).wf(),
        ensures
            final(self).wf(),
            final(self).limit() == old(self).limit(),
            final(self).layout() == layout_split(old(self).layout()),
            final(self)@ == old(self)@,
            final(self).data_region() == old(self).closed_data(),
            final(self).index() == old(self).closed_index(),
            r is Ok <==> layout_encodable(old(self).layout()),
            r matches Ok(bytes) ==> {
                &&& bytes@ == table_bytes(final(self).data_region(), final(self).index())
                &&& final(self).data_region().len() <= OFFSET_MAX
                &&& old(self)@.len() > 0 ==> {
                    &&& super::valid_table_bytes(bytes@)
                    &&& super::table_meta_offset(bytes@) == final(self).data_region().len()
                    &&& super::parse_metas(super::table_index_bytes(bytes@)) == Some(
                        final(self).index(),
                    )
                }
            },
            table_blocks(final(self).data_region(), final(self).index()) == final(self).layout().closed,
            r matches Err(e) ==> e == LsmError::InvariantViolated,
    {
        self.split_block();
        if self.meta.len() > FIELD_MAX || self.data.len() > OFFSET_MAX {
            return Err(LsmError::InvariantViolated);
        }
        proof {
            let metas = metas_view(self.meta@);
            if metas.len() > 0 {
                lemma_table_blocks(self.data@, metas);
            }
            assert forall|i: int| 0 <= i < self.meta@.len() implies meta_fits(
                #[trigger] self.meta@[i]@,
            ) by {
                assert(metas[i] == self.meta@[i]@);
                assert(block_ok(self.data@, metas, i));
                let blocks = table_blocks(self.data@, metas);
                assert(keys_bounded(blocks[i]));
            }
        }
        let mut encoded: Vec<u8> = Vec::new();
        push_range(&mut encoded, self.data.as_slice(), 0, self.data.len());
        BlockMeta::encode_block_meta(self.meta.as_slice(), &mut encoded);
        push_u32(&mut encoded, self.data.len() as u32);
        proof {
            assert(self.data@.subrange(0, self.data@.len() as int) =~= self.data@);
            assert(encoded@ =~= table_bytes(self.data@, metas_view(self.meta@)));
            let metas = metas_view(self.meta@);
            if old(self)@.len() > 0 {
                self.lemma_wf();
                if metas.len() == 0 {
                    assert(concat(table_blocks(self.data@, metas)) =~= Seq::<Entry>::empty());
                }
                assert forall|i: int| 0 <= i < metas.len() implies meta_fits(#[trigger] metas[i]) by {
                    assert(metas[i] == self.meta@[i]@);
                }
                super::lemma_table_bytes(self.data@, metas);
            }
        }
        Ok(encoded)
    }

    /// The table of the entries added, with the given identifier. A builder
    /// without entries gives no table, nor one whose table cannot be encoded.
    #[verifier::rlimit(60)]
    pub fn build(self, id: usize) -> (r: Result<SsTable, LsmError>)
        requires
            self.wf(),
        ensures
            r is Ok <==> self@.len() > 0 && layout_encodable(self.layout()),
            r matches Ok(t) ==> t.wf() && t@ == self@ && t.id_spec() == id && t.blocks()
                == layout_split(self.layout()).closed && super::valid_table_bytes(t.file_bytes())
                && t.filter() is Some && t.file_bytes() == table_bytes(
                self.closed_data(),
                self.closed_index(),
            ),
            r matches Err(e) ==> e == LsmError::InvariantViolated,
    {
        let mut this = self;
        if this.is_empty() {
            return Err(LsmError::InvariantViolated);
        }
        let bytes = match this.encode() {
            Ok(b) => b,
            Err(e) => {
                return Err(e);
            },
        };
        proof {
            this.lemma_wf();
            let metas = metas_view(this.meta@);
            let closed = table_blocks(this.data@, metas);
            if metas.len() == 0 {
                assert(concat(closed) =~= Seq::<Entry>::empty());
            }
            assert(bytes@.subrange(0, this.data@.len() as int) =~= this.data@);
            assert(concat(closed) + Seq::<Entry>::empty() =~= concat(closed));
        }
        proof {
            this.lemma_last();
        }
        let block_meta_offset: usize = this.data.len();
        let file = FileObject::create(bytes);
        let first_key = key_to_vec(slice_as_bytes(this.first_key.as_slice()));
        let last_key = key_to_vec(slice_as_bytes(this.last_key.as_slice()));
        assert(metas_view(this.meta@)[0] == this.meta@[0]@);
        assert(metas_view(this.meta@).last() == this.meta@.last()@);
        let bloom = Bloom::build_from_key_hashes(this.key_hashes.as_slice(), BLOOM_BITS_PER_KEY);
        proof {
            let entries = concat(
                table_blocks(file@.subrange(0, block_meta_offset as int), metas_view(this.meta@)),
            );
            assert(entries == this@);
            assert forall|i: int|
                0 <= i < entries.len() && hashable((#[trigger] entries[i]).0) implies bloom.admits(
                fingerprint(entries[i].0),
            ) by {
                let h = fingerprint(this@[i].0);
                assert(this.key_hashes@.contains(h));
                let j = choose|j: int| 0 <= j < this.key_hashes@.len() && this.key_hashes@[j] == h;
                assert(bloom.admits(this.key_hashes@[j]));
            }
        }
        let table = SsTable::assemble(
            id,
            file,
            this.meta,
            block_meta_offset,
            first_key,
            last_key,
            Some(bloom),
        );
        proof {
            table.lemma_file();
        }
        Ok(table)
    }
}

} // verus!
