//! Sorted tables: immutable files of blocks with an index of the blocks.
//!
//! A table file holds the encoded blocks end to end, then for each block where
//! it starts and its first and last key, then where that index starts, all
//! integers big-endian:
//!
//! ```text
//! file:  block .. block | u16 count | meta .. meta | u32 meta_offset
//! meta:  u32 offset | u16 len | first_key | u16 len | last_key
//! ```
//!
//! A table that is built also gets a bloom filter over its keys. The filter
//! is kept in memory only: a table that is opened from a file has none.

pub mod bloom;
pub mod builder;
pub mod iterator;

use crate::block::{
    be16, be16_bytes, decoded_entries, lemma_decoded_entries, push_range, push_u16, read_u16,
    valid_block_bytes, Block, FIELD_MAX,
};
use crate::entries::{
    blocks_bounded, blocks_ordered, concat, keys_bounded, lemma_concat_bounded, lemma_concat_sorted,
    sorted, Entry,
};
use crate::error::LsmError;
use crate::key::{key_equal, key_le, key_less, key_less_eq, key_lt, key_to_vec};
use crate::table::bloom::{fingerprint, hashable, try_fingerprint, Bloom};
use std::sync::Arc;
use vstd::prelude::*;
use vstd::slice::{slice_subrange, slice_to_vec};

verus! {

/// The largest number that an offset field of a table can hold.
pub const OFFSET_MAX: usize = 0xFFFF_FFFF;

/// The big-endian number held in the four bytes at `i`.
pub open spec fn be32(s: Seq<u8>, i: int) -> int {
    ((s[i] as int * 256 + s[i + 1] as int) * 256 + s[i + 2] as int) * 256 + s[i + 3] as int
}

/// The four bytes that hold `x` big-endian.
pub open spec fn be32_bytes(x: int) -> Seq<u8> {
    seq![
        (x / 16777216) as u8,
        (x / 65536 % 256) as u8,
        (x / 256 % 256) as u8,
        (x % 256) as u8,
    ]
}

/// Four bytes hold a number below 2^32, and reading them gives it back.
pub proof fn lemma_be32_roundtrip(x: int)
    requires
        0 <= x <= OFFSET_MAX,
    ensures
        be32_bytes(x).len() == 4,
        be32(be32_bytes(x), 0) == x,
{
}

/// Reads the big-endian number in the four bytes at `pos`.
pub fn read_u32(data: &[u8], pos: usize) -> (r: u32)
    requires
        pos + 4 <= data@.len(),
    ensures
        r == be32(data@, pos as int),
{
    let b0: u32 = data[pos] as u32;
    let b1: u32 = data[pos + 1] as u32;
    let b2: u32 = data[pos + 2] as u32;
    let b3: u32 = data[pos + 3] as u32;
    ((b0 * 256 + b1) * 256 + b2) * 256 + b3
}

/// Appends `x` big-endian.
pub fn push_u32(buf: &mut Vec<u8>, x: u32)
    ensures
        final(buf)@ == old(buf)@ + be32_bytes(x as int),
{
    buf.push((x / 16777216) as u8);
    buf.push((x / 65536 % 256) as u8);
    buf.push((x / 256 % 256) as u8);
    buf.push((x % 256) as u8);
    assert(buf@ =~= old(buf)@ + be32_bytes(x as int));
}

/// `Arc::clone`: it gives another handle to the same value.
#[verifier::external_body]
pub(crate) fn share<T>(a: &Arc<T>) -> (r: Arc<T>)
    ensures
        r == *a,
{
    Arc::clone(a)
}

/// Where a block starts in the data region of its table, and its first and last key.
pub struct BlockMeta {
    /// Where the block starts.
    pub offset: usize,
    /// The first key of the block.
    pub first_key: Vec<u8>,
    /// The last key of the block.
    pub last_key: Vec<u8>,
}

/// What a `BlockMeta` holds, as plain values.
pub struct MetaView {
    pub offset: int,
    pub first_key: Seq<u8>,
    pub last_key: Seq<u8>,
}

impl View for BlockMeta {
    type V = MetaView;

    open spec fn view(&self) -> MetaView {
        MetaView { offset: self.offset as int, first_key: self.first_key@, last_key: self.last_key@ }
    }
}

/// What each of the index entries holds.
pub open spec fn metas_view(metas: Seq<BlockMeta>) -> Seq<MetaView> {
    Seq::new(metas.len(), |i: int| metas[i]@)
}

/// The offset and the lengths of the keys fit their fields.
pub open spec fn meta_fits(m: MetaView) -> bool {
    &&& 0 <= m.offset <= OFFSET_MAX
    &&& m.first_key.len() <= FIELD_MAX
    &&& m.last_key.len() <= FIELD_MAX
}

/// The encoded form of one index entry.
pub open spec fn meta_bytes(m: MetaView) -> Seq<u8> {
    be32_bytes(m.offset) + be16_bytes(m.first_key.len() as int) + m.first_key + be16_bytes(
        m.last_key.len() as int,
    ) + m.last_key
}

/// The encoded forms of index entries, end to end.
pub open spec fn metas_body(metas: Seq<MetaView>) -> Seq<u8>
    decreases metas.len(),
{
    if metas.len() == 0 {
        Seq::empty()
    } else {
        metas_body(metas.drop_last()) + meta_bytes(metas.last())
    }
}

/// The encoded form of an index: the number of entries, then the entries.
pub open spec fn metas_bytes(metas: Seq<MetaView>) -> Seq<u8> {
    be16_bytes(metas.len() as int) + metas_body(metas)
}

/// The encoded form of a table: data region, index, and where the index starts.
pub open spec fn table_bytes(data: Seq<u8>, metas: Seq<MetaView>) -> Seq<u8> {
    data + metas_bytes(metas) + be32_bytes(data.len() as int)
}

/// The index entry encoded at `pos`, and where it ends; none where the bytes
/// end before the entry does.
pub open spec fn meta_at(buf: Seq<u8>, pos: int) -> Option<(MetaView, int)> {
    if pos < 0 || pos + 6 > buf.len() {
        None
    } else {
        let first_len = be16(buf, pos + 4);
        if pos + 8 + first_len > buf.len() {
            None
        } else {
            let last_len = be16(buf, pos + 6 + first_len);
            if pos + 8 + first_len + last_len > buf.len() {
                None
            } else {
                Some(
                    (
                        MetaView {
                            offset: be32(buf, pos),
                            first_key: buf.subrange(pos + 6, pos + 6 + first_len),
                            last_key: buf.subrange(
                                pos + 8 + first_len,
                                pos + 8 + first_len + last_len,
                            ),
                        },
                        pos + 8 + first_len + last_len,
                    ),
                )
            }
        }
    }
}

/// The `count` index entries encoded from `pos` to the end of the bytes.
pub open spec fn metas_from(buf: Seq<u8>, pos: int, count: nat) -> Option<Seq<MetaView>>
    decreases count,
{
    if count == 0 {
        if pos == buf.len() {
            Some(Seq::empty())
        } else {
            None
        }
    } else {
        match meta_at(buf, pos) {
            None => None,
            Some((m, next)) => match metas_from(buf, next, (count - 1) as nat) {
                None => None,
                Some(rest) => Some(seq![m] + rest),
            },
        }
    }
}

/// The index that the bytes encode, if they encode one.
pub open spec fn parse_metas(buf: Seq<u8>) -> Option<Seq<MetaView>> {
    if buf.len() < 2 {
        None
    } else {
        metas_from(buf, 2, be16(buf, 0) as nat)
    }
}

impl BlockMeta {
    /// Appends the encoded form of an index to `buf`.
    pub fn encode_block_meta(block_meta: &[BlockMeta], buf: &mut Vec<u8>)
        requires
            block_meta@.len() <= FIELD_MAX,
            forall|i: int| 0 <= i < block_meta@.len() ==> meta_fits(#[trigger] block_meta@[i]@),
        ensures
            final(buf)@ == old(buf)@ + metas_bytes(metas_view(block_meta@)),
    {
        let n: usize = block_meta.len();
        let ghost metas = metas_view(block_meta@);
        push_u16(buf, n as u16);
        let mut i: usize = 0;
        while i < n
            invariant
                0 <= i <= n,
                n == block_meta@.len(),
                n <= FIELD_MAX,
                metas == metas_view(block_meta@),
                forall|j: int| 0 <= j < block_meta@.len() ==> meta_fits(#[trigger] block_meta@[j]@),
                buf@ == old(buf)@ + be16_bytes(n as int) + metas_body(metas.subrange(0, i as int)),
            decreases n - i,
        {
            let m = &block_meta[i];
            assert(meta_fits(block_meta@[i as int]@));
            let ghost before = buf@;
            push_u32(buf, m.offset as u32);
            push_u16(buf, m.first_key.len() as u16);
            push_range(buf, m.first_key.as_slice(), 0, m.first_key.len());
            push_u16(buf, m.last_key.len() as u16);
            push_range(buf, m.last_key.as_slice(), 0, m.last_key.len());
            proof {
                assert(m.first_key@.subrange(0, m.first_key@.len() as int) =~= m.first_key@);
                assert(m.last_key@.subrange(0, m.last_key@.len() as int) =~= m.last_key@);
                assert(buf@ =~= before + meta_bytes(m@));
                let next = metas.subrange(0, i + 1);
                assert(next.drop_last() =~= metas.subrange(0, i as int));
                assert(next.last() == m@);
                assert(buf@ =~= old(buf)@ + be16_bytes(n as int) + metas_body(next));
            }
            i = i + 1;
        }
        proof {
            assert(metas.subrange(0, n as int) =~= metas);
            assert(buf@ =~= old(buf)@ + metas_bytes(metas));
        }
    }

    /// Rebuilds an index from its encoded form. Bytes that are not the
    /// encoded form of an index are reported as corruption.
    pub fn decode_block_meta(buf: &[u8]) -> (r: Result<Vec<BlockMeta>, LsmError>)
        ensures
            r is Ok <==> parse_metas(buf@) is Some,
            r matches Ok(v) ==> metas_view(v@) == parse_metas(buf@)->0,
            r matches Err(e) ==> e == LsmError::Corruption,
    {
        let len: usize = buf.len();
        if len < 2 {
            return Err(LsmError::Corruption);
        }
        let count: usize = read_u16(buf, 0) as usize;
        let mut metas: Vec<BlockMeta> = Vec::new();
        let mut pos: usize = 2;
        let mut i: usize = 0;
        proof {
            if let Some(rest) = metas_from(buf@, 2, count as nat) {
                assert(metas_view(metas@) + rest =~= rest);
            }
        }
        while i < count
            invariant
                0 <= i <= count,
                len == buf@.len(),
                2 <= pos <= len,
                parse_metas(buf@) == match metas_from(buf@, pos as int, (count - i) as nat) {
                    None => None::<Seq<MetaView>>,
                    Some(rest) => Some(metas_view(metas@) + rest),
                },
            decreases count - i,
        {
            if len - pos < 6 {
                return Err(LsmError::Corruption);
            }
            let offset: usize = read_u32(buf, pos) as usize;
            let first_len: usize = read_u16(buf, pos + 4) as usize;
            if len - pos - 6 < first_len + 2 {
                return Err(LsmError::Corruption);
            }
            let last_len: usize = read_u16(buf, pos + 6 + first_len) as usize;
            if len - pos - 8 - first_len < last_len {
                return Err(LsmError::Corruption);
            }
            let first_key = slice_to_vec(slice_subrange(buf, pos + 6, pos + 6 + first_len));
            let last_key = slice_to_vec(
                slice_subrange(buf, pos + 8 + first_len, pos + 8 + first_len + last_len),
            );
            let ghost before = metas@;
            let m = BlockMeta { offset, first_key, last_key };
            let next: usize = pos + 8 + first_len + last_len;
            proof {
                assert(meta_at(buf@, pos as int) == Some((m@, next as int)));
                if let Some(rest) = metas_from(buf@, next as int, (count - i - 1) as nat) {
                    assert(metas_view(before.push(m)) + rest =~= metas_view(before) + (seq![m@]
                        + rest));
                }
            }
            metas.push(m);
            pos = next;
            i = i + 1;
        }
        if pos != len {
            return Err(LsmError::Corruption);
        }
        proof {
            assert(metas_view(metas@) + Seq::<MetaView>::empty() =~= metas_view(metas@));
        }
        Ok(metas)
    }
}

/// The contents of a file.
pub struct FileObject {
    data: Vec<u8>,
}

impl View for FileObject {
    type V = Seq<u8>;

    closed spec fn view(&self) -> Seq<u8> {
        self.data@
    }
}

impl FileObject {
    /// A file that holds `data`.
    pub fn create(data: Vec<u8>) -> (r: FileObject)
        ensures
            r@ == data@,
    {
        FileObject { data }
    }

    /// The `len` bytes from `offset` on.
    pub fn read(&self, offset: usize, len: usize) -> (r: Vec<u8>)
        requires
            offset + len <= self@.len(),
        ensures
            r@ == self@.subrange(offset as int, offset + len),
    {
        let size: usize = self.data.len();
        assert(offset + len <= size);
        slice_to_vec(slice_subrange(self.data.as_slice(), offset, offset + len))
    }

    /// The number of bytes in the file.
    pub fn size(&self) -> (r: usize)
        ensures
            r == self@.len(),
    {
        self.data.len()
    }

    /// The bytes of the file.
    pub fn bytes(&self) -> (r: &[u8])
        ensures
            r@ == self@,
    {
        self.data.as_slice()
    }
}

/// Where block `i` ends in the data region: where the next block starts, or
/// the end of the region for the last block.
pub open spec fn block_stop(metas: Seq<MetaView>, i: int, data_len: int) -> int {
    if i + 1 < metas.len() {
        metas[i + 1].offset
    } else {
        data_len
    }
}

/// The encoded form of block `i`.
pub open spec fn block_slice(data: Seq<u8>, metas: Seq<MetaView>, i: int) -> Seq<u8> {
    data.subrange(metas[i].offset, block_stop(metas, i, data.len() as int))
}

/// Block `i` lies within the data region, is the encoded form of a block with
/// entries, has the first and last key that the index gives, and ends before
/// the next block starts.
pub open spec fn block_ok(data: Seq<u8>, metas: Seq<MetaView>, i: int) -> bool {
    let s = block_slice(data, metas, i);
    &&& 0 <= metas[i].offset < block_stop(metas, i, data.len() as int) <= data.len()
    &&& valid_block_bytes(s)
    &&& decoded_entries(s).len() > 0
    &&& metas[i].first_key == decoded_entries(s)[0].0
    &&& metas[i].last_key == decoded_entries(s).last().0
    &&& i + 1 < metas.len() ==> key_lt(metas[i].last_key, metas[i + 1].first_key)
}

/// A data region and an index form a table: there is a block, the first
/// starts at 0, and every block is in order.
pub open spec fn table_wf(data: Seq<u8>, metas: Seq<MetaView>) -> bool {
    &&& metas.len() > 0
    &&& metas[0].offset == 0
    &&& forall|i: int| 0 <= i < metas.len() ==> #[trigger] block_ok(data, metas, i)
}

/// The entries of each block of a table.
pub open spec fn table_blocks(data: Seq<u8>, metas: Seq<MetaView>) -> Seq<Seq<Entry>> {
    Seq::new(metas.len(), |i: int| decoded_entries(block_slice(data, metas, i)))
}

/// The bytes are the encoded form of a table.
pub open spec fn valid_table_bytes(bytes: Seq<u8>) -> bool {
    &&& bytes.len() >= 4
    &&& table_meta_offset(bytes) <= bytes.len() - 4
    &&& parse_metas(table_index_bytes(bytes)) is Some
    &&& table_wf(table_data(bytes), parse_metas(table_index_bytes(bytes))->0)
}

/// Where the index starts in an encoded table.
pub open spec fn table_meta_offset(bytes: Seq<u8>) -> int {
    be32(bytes, bytes.len() - 4)
}

/// The data region of an encoded table.
pub open spec fn table_data(bytes: Seq<u8>) -> Seq<u8> {
    bytes.subrange(0, table_meta_offset(bytes))
}

/// The encoded index of an encoded table.
pub open spec fn table_index_bytes(bytes: Seq<u8>) -> Seq<u8> {
    bytes.subrange(table_meta_offset(bytes), bytes.len() - 4)
}

/// The blocks of a table are ordered, and their keys are non-empty and at most
/// 65535 bytes long.
pub proof fn lemma_table_blocks(data: Seq<u8>, metas: Seq<MetaView>)
    requires
        table_wf(data, metas),
    ensures
        blocks_ordered(table_blocks(data, metas)),
        blocks_bounded(table_blocks(data, metas)),
        sorted(concat(table_blocks(data, metas))),
        keys_bounded(concat(table_blocks(data, metas))),
        crate::entries::each(concat(table_blocks(data, metas)), |e: Entry| crate::entries::fits(e)),
        concat(table_blocks(data, metas)).len() > 0,
        concat(table_blocks(data, metas))[0].0 == metas[0].first_key,
{
    let blocks = table_blocks(data, metas);
    assert forall|i: int| 0 <= i < blocks.len() implies (#[trigger] blocks[i]).len() > 0 && sorted(
        blocks[i],
    ) && keys_bounded(blocks[i]) by {
        assert(block_ok(data, metas, i));
        lemma_decoded_entries(block_slice(data, metas, i));
    }
    assert forall|i: int| 0 <= i < blocks.len() - 1 implies key_lt(
        (#[trigger] blocks[i]).last().0,
        blocks[i + 1][0].0,
    ) by {
        assert(block_ok(data, metas, i));
        assert(block_ok(data, metas, i + 1));
    }
    lemma_concat_sorted(blocks, 0);
    lemma_concat_bounded(blocks, 0);
    assert(block_ok(data, metas, 0));
    let p = |e: Entry| crate::entries::fits(e);
    assert forall|i: int| 0 <= i < blocks.len() implies crate::entries::each(
        #[trigger] blocks[i],
        p,
    ) by {
        assert(block_ok(data, metas, i));
        lemma_decoded_entries(block_slice(data, metas, i));
    }
    crate::entries::lemma_concat_each(blocks, 0, p);
}

/// Tells whether block `i` of the data region `bytes[..bmo]` is in order.
#[verifier::rlimit(40)]
fn block_in_order(bytes: &[u8], bmo: usize, metas: &Vec<BlockMeta>, i: usize) -> (ok: bool)
    requires
        bmo <= bytes@.len(),
        i < metas@.len(),
    ensures
        ok == block_ok(bytes@.subrange(0, bmo as int), metas_view(metas@), i as int),
{
    let ghost mv = metas_view(metas@);
    let ghost data = bytes@.subrange(0, bmo as int);
    let n: usize = metas.len();
    assert(mv[i as int] == metas@[i as int]@);
    let start: usize = metas[i].offset;
    let stop: usize = if i + 1 < n {
        assert(mv[i + 1] == metas@[i + 1]@);
        metas[i + 1].offset
    } else {
        bmo
    };
    if !(start < stop && stop <= bmo) {
        return false;
    }
    let slice = slice_subrange(bytes, start, stop);
    assert(slice@ =~= block_slice(data, mv, i as int));
    let block = match Block::decode(slice) {
        Ok(b) => b,
        Err(e) => {
            return false;
        },
    };
    if block.len() == 0 {
        return false;
    }
    let last = block.last_key();
    if !key_equal(block.first_key(), metas[i].first_key.as_slice()) || !key_equal(
        last.as_slice(),
        metas[i].last_key.as_slice(),
    ) {
        return false;
    }
    if i + 1 < n && !key_less(metas[i].last_key.as_slice(), metas[i + 1].first_key.as_slice()) {
        return false;
    }
    true
}

/// The encoded index entries from the first on: the first, then the rest.
pub proof fn lemma_metas_body_first(metas: Seq<MetaView>)
    requires
        metas.len() > 0,
    ensures
        metas_body(metas) == meta_bytes(metas[0]) + metas_body(metas.skip(1)),
    decreases metas.len(),
{
    if metas.len() == 1 {
        assert(metas.drop_last() =~= Seq::<MetaView>::empty());
        assert(metas.skip(1) =~= Seq::<MetaView>::empty());
        assert(metas_body(metas.drop_last()) =~= Seq::<u8>::empty());
        assert(metas_body(metas.skip(1)) =~= Seq::<u8>::empty());
        assert(metas.last() == metas[0]);
        assert(metas_body(metas) =~= meta_bytes(metas[0]));
        assert(meta_bytes(metas[0]) + metas_body(metas.skip(1)) =~= meta_bytes(metas[0]));
    } else {
        let init = metas.drop_last();
        lemma_metas_body_first(init);
        assert(init[0] == metas[0]);
        assert(init.skip(1) =~= metas.skip(1).drop_last());
        assert(metas.skip(1).last() == metas.last());
        assert(metas_body(metas) =~= meta_bytes(metas[0]) + metas_body(metas.skip(1)));
    }
}

/// An index entry that is encoded at `pos` reads back as it was written.
pub proof fn lemma_meta_at(prefix: Seq<u8>, m: MetaView, suffix: Seq<u8>)
    requires
        meta_fits(m),
    ensures
        meta_at(prefix + meta_bytes(m) + suffix, prefix.len() as int) == Some(
            (m, (prefix.len() + meta_bytes(m).len()) as int),
        ),
        meta_bytes(m).len() == 8 + m.first_key.len() + m.last_key.len(),
{
    let pos = prefix.len() as int;
    let mb = meta_bytes(m);
    let buf = prefix + mb + suffix;
    let fl = m.first_key.len() as int;
    let ll = m.last_key.len() as int;
    lemma_be32_roundtrip(m.offset);
    crate::block::lemma_be16_roundtrip(fl);
    crate::block::lemma_be16_roundtrip(ll);
    assert(mb.len() == 8 + fl + ll);
    let o = be32_bytes(m.offset);
    let f = be16_bytes(fl);
    let l = be16_bytes(ll);
    assert(mb[0] == o[0] && mb[1] == o[1] && mb[2] == o[2] && mb[3] == o[3]);
    assert(mb[4] == f[0] && mb[5] == f[1]);
    assert(mb[6 + fl] == l[0] && mb[6 + fl + 1] == l[1]);
    assert forall|j: int| 0 <= j < mb.len() implies buf[pos + j] == mb[j] by {}
    assert(buf[pos] == mb[0] && buf[pos + 1] == mb[1] && buf[pos + 2] == mb[2] && buf[pos + 3]
        == mb[3]);
    assert(be32(buf, pos) == m.offset);
    assert(buf[pos + 4] == mb[4] && buf[pos + 5] == mb[5]);
    assert(be16(buf, pos + 4) == fl);
    assert(buf[pos + 6 + fl] == mb[6 + fl] && buf[pos + 6 + fl + 1] == mb[6 + fl + 1]);
    assert(be16(buf, pos + 6 + fl) == ll);
    assert forall|j: int| 0 <= j < fl implies buf[pos + 6 + j] == m.first_key[j] by {
        assert(buf[pos + 6 + j] == mb[6 + j]);
    }
    assert(buf.subrange(pos + 6, pos + 6 + fl) =~= m.first_key);
    assert forall|j: int| 0 <= j < ll implies buf[pos + 8 + fl + j] == m.last_key[j] by {
        assert(buf[pos + 8 + fl + j] == mb[8 + fl + j]);
    }
    assert(buf.subrange(pos + 8 + fl, pos + 8 + fl + ll) =~= m.last_key);
}

/// Index entries that are encoded from `pos` to the end read back as they
/// were written.
pub proof fn lemma_metas_from(prefix: Seq<u8>, metas: Seq<MetaView>)
    requires
        forall|i: int| 0 <= i < metas.len() ==> meta_fits(#[trigger] metas[i]),
    ensures
        metas_from(prefix + metas_body(metas), prefix.len() as int, metas.len()) == Some(metas),
    decreases metas.len(),
{
    let buf = prefix + metas_body(metas);
    if metas.len() == 0 {
        assert(buf =~= prefix);
    } else {
        let m = metas[0];
        let rest = metas.skip(1);
        lemma_metas_body_first(metas);
        lemma_meta_at(prefix, m, metas_body(rest));
        assert(buf =~= prefix + meta_bytes(m) + metas_body(rest));
        let next_prefix = prefix + meta_bytes(m);
        assert forall|i: int| 0 <= i < rest.len() implies meta_fits(#[trigger] rest[i]) by {
            assert(rest[i] == metas[i + 1]);
        }
        lemma_metas_from(next_prefix, rest);
        assert(seq![m] + rest =~= metas);
    }
}

/// The encoded form of a table reads back as the table: the bytes are valid,
/// and their data region and index are those that were encoded.
pub proof fn lemma_table_bytes(data: Seq<u8>, metas: Seq<MetaView>)
    requires
        table_wf(data, metas),
        data.len() <= OFFSET_MAX,
        metas.len() <= FIELD_MAX,
        forall|i: int| 0 <= i < metas.len() ==> meta_fits(#[trigger] metas[i]),
    ensures
        valid_table_bytes(table_bytes(data, metas)),
        table_data(table_bytes(data, metas)) == data,
        parse_metas(table_index_bytes(table_bytes(data, metas))) == Some(metas),
{
    let bytes = table_bytes(data, metas);
    let index = metas_bytes(metas);
    let n = data.len() as int;
    lemma_be32_roundtrip(n);
    let foot = be32_bytes(n);
    assert(bytes.len() == n + index.len() + 4);
    let end = bytes.len() as int;
    assert(bytes[end - 4] == foot[0] && bytes[end - 3] == foot[1] && bytes[end - 2] == foot[2]
        && bytes[end - 1] == foot[3]);
    assert(table_meta_offset(bytes) == n);
    assert(table_data(bytes) =~= data);
    assert(table_index_bytes(bytes) =~= index);
    crate::block::lemma_be16_roundtrip(metas.len() as int);
    let head = be16_bytes(metas.len() as int);
    assert(index[0] == head[0] && index[1] == head[1]);
    lemma_metas_from(head, metas);
}

/// The filter lets through the fingerprint of every key of the entries
/// whose fingerprint can be taken.
pub open spec fn filter_covers(b: Bloom, entries: Seq<Entry>) -> bool {
    forall|i: int|
        0 <= i < entries.len() && hashable((#[trigger] entries[i]).0) ==> b.admits(
            fingerprint(entries[i].0),
        )
}

/// An immutable sorted table.
pub struct SsTable {
    /// The file that holds the table.
    file: FileObject,
    /// Where each block starts, and its first and last key.
    block_meta: Vec<BlockMeta>,
    /// Where the data region ends and the index starts.
    block_meta_offset: usize,
    id: usize,
    first_key: Vec<u8>,
    last_key: Vec<u8>,
    /// A filter over the keys of the table, if one was made.
    bloom: Option<Bloom>,
}

impl View for SsTable {
    type V = Seq<Entry>;

    /// The entries of the table, in order.
    open spec fn view(&self) -> Seq<Entry> {
        concat(self.blocks())
    }
}

impl SsTable {
    /// The data region of the table.
    pub closed spec fn data(&self) -> Seq<u8> {
        self.file@.subrange(0, self.block_meta_offset as int)
    }

    /// The index of the table.
    pub closed spec fn metas(&self) -> Seq<MetaView> {
        metas_view(self.block_meta@)
    }

    /// The bytes of the file that holds the table.
    pub closed spec fn file_bytes(&self) -> Seq<u8> {
        self.file@
    }

    /// The identifier of the table.
    pub closed spec fn id_spec(&self) -> usize {
        self.id
    }

    /// The entries of each block.
    pub open spec fn blocks(&self) -> Seq<Seq<Entry>> {
        table_blocks(self.data(), self.metas())
    }

    /// The data region and the index form a table, and the recorded first and
    /// last keys are those of the first and the last block.
    pub closed spec fn wf(&self) -> bool {
        &&& self.block_meta_offset <= self.file@.len()
        &&& table_wf(self.data(), self.metas())
        &&& self.first_key@ == self.metas()[0].first_key
        &&& self.last_key@ == self.metas().last().last_key
        &&& valid_table_bytes(self.file@)
        &&& table_meta_offset(self.file@) == self.block_meta_offset
        &&& parse_metas(table_index_bytes(self.file@)) == Some(self.metas())
        &&& self.bloom matches Some(b) ==> b.wf() && filter_covers(b, self@)
    }

    /// The filter over the keys of the table, if one was made.
    pub closed spec fn filter(&self) -> Option<Bloom> {
        self.bloom
    }

    /// The file of a well-formed table is the encoded form of the table:
    /// opening it gives a table with the same blocks.
    pub proof fn lemma_file(&self)
        requires
            self.wf(),
        ensures
            valid_table_bytes(self.file_bytes()),
            table_blocks(
                table_data(self.file_bytes()),
                parse_metas(table_index_bytes(self.file_bytes()))->0,
            ) == self.blocks(),
    {
    }

    /// What a well-formed table holds: ordered blocks, so strictly increasing
    /// keys, each non-empty and at most 65535 bytes long.
    pub proof fn lemma_wf(&self)
        requires
            self.wf(),
        ensures
            self.blocks().len() > 0,
            blocks_ordered(self.blocks()),
            blocks_bounded(self.blocks()),
            sorted(self@),
            keys_bounded(self@),
            crate::entries::each(self@, |e: Entry| crate::entries::fits(e)),
            self@.len() > 0,
    {
        lemma_table_blocks(self.data(), self.metas());
    }

    /// The table with the given index over the data region `file[..block_meta_offset]`.
    pub(crate) fn assemble(
        id: usize,
        file: FileObject,
        block_meta: Vec<BlockMeta>,
        block_meta_offset: usize,
        first_key: Vec<u8>,
        last_key: Vec<u8>,
        bloom: Option<Bloom>,
    ) -> (r: SsTable)
        requires
            block_meta_offset <= file@.len(),
            table_wf(file@.subrange(0, block_meta_offset as int), metas_view(block_meta@)),
            first_key@ == block_meta@[0].first_key@,
            last_key@ == block_meta@.last().last_key@,
            valid_table_bytes(file@),
            table_meta_offset(file@) == block_meta_offset,
            parse_metas(table_index_bytes(file@)) == Some(metas_view(block_meta@)),
            bloom matches Some(b) ==> b.wf() && filter_covers(
                b,
                concat(
                    table_blocks(
                        file@.subrange(0, block_meta_offset as int),
                        metas_view(block_meta@),
                    ),
                ),
            ),
        ensures
            r.wf(),
            r.id_spec() == id,
            r.filter() == bloom,
            r.file_bytes() == file@,
            r.blocks() == table_blocks(
                file@.subrange(0, block_meta_offset as int),
                metas_view(block_meta@),
            ),
    {
        assert(metas_view(block_meta@)[0] == block_meta@[0]@);
        assert(metas_view(block_meta@).last() == block_meta@.last()@);
        SsTable { file, block_meta, block_meta_offset, id, first_key, last_key, bloom }
    }

    /// Opens the table that a file holds. A file that is not the encoded form
    /// of a table is reported as corruption.
    #[verifier::rlimit(40)]
    pub fn open(id: usize, file: FileObject) -> (r: Result<SsTable, LsmError>)
        ensures
            r is Ok <==> valid_table_bytes(file@),
            r matches Ok(t) ==> t.wf() && t.file_bytes() == file@ && t.id_spec() == id
                && t.filter() is None && t.blocks() == table_blocks(
                table_data(file@),
                parse_metas(table_index_bytes(file@))->0,
            ),
            r matches Err(e) ==> e == LsmError::Corruption,
    {
        let bytes: &[u8] = file.bytes();
        let len: usize = bytes.len();
        if len < 4 {
            return Err(LsmError::Corruption);
        }
        let bmo: usize = read_u32(bytes, len - 4) as usize;
        if bmo > len - 4 {
            return Err(LsmError::Corruption);
        }
        let metas = match BlockMeta::decode_block_meta(slice_subrange(bytes, bmo, len - 4)) {
            Ok(m) => m,
            Err(e) => {
                return Err(e);
            },
        };
        let ghost mv = metas_view(metas@);
        let ghost data = table_data(file@);
        let n: usize = metas.len();
        if n == 0 || metas[0].offset != 0 {
            proof {
                if n > 0 {
                    assert(mv[0] == metas@[0]@);
                }
            }
            return Err(LsmError::Corruption);
        }
        assert(bytes@.subrange(0, bmo as int) == data);
        assert(valid_table_bytes(file@) <==> table_wf(data, mv));
        let mut i: usize = 0;
        while i < n
            invariant
                0 <= i <= n,
                n == metas@.len(),
                mv == metas_view(metas@),
                bmo <= bytes@.len(),
                valid_table_bytes(file@) <==> table_wf(data, mv),
                data == bytes@.subrange(0, bmo as int),
                forall|j: int| 0 <= j < i ==> #[trigger] block_ok(data, mv, j),
            decreases n - i,
        {
            if !block_in_order(bytes, bmo, &metas, i) {
                return Err(LsmError::Corruption);
            }
            i = i + 1;
        }
        let first_key = key_to_vec(metas[0].first_key.as_slice());
        let last_key = key_to_vec(metas[n - 1].last_key.as_slice());
        Ok(Self::assemble(id, file, metas, bmo, first_key, last_key, None))
    }

    /// Reads and decodes block `idx`.
    pub fn read_block(&self, idx: usize) -> (r: Result<Arc<Block>, LsmError>)
        requires
            self.wf(),
            idx < self.blocks().len(),
        ensures
            r matches Ok(b) && b.wf() && b@ == self.blocks()[idx as int],
    {
        let n: usize = self.block_meta.len();
        assert(block_ok(self.data(), self.metas(), idx as int));
        assert(self.metas()[idx as int] == self.block_meta@[idx as int]@);
        let start: usize = self.block_meta[idx].offset;
        let stop: usize = if idx + 1 < n {
            assert(self.metas()[idx + 1] == self.block_meta@[idx + 1]@);
            self.block_meta[idx + 1].offset
        } else {
            self.block_meta_offset
        };
        let bytes = self.file.read(start, stop - start);
        assert(bytes@ =~= block_slice(self.data(), self.metas(), idx as int));
        match Block::decode(bytes.as_slice()) {
            Ok(b) => Ok(Arc::new(b)),
            Err(e) => Err(e),
        }
    }

    /// The index of the block that may hold `key`: the last block whose first
    /// key is at or before `key`, or the first block.
    pub fn find_block_idx(&self, key: &[u8]) -> (r: usize)
        requires
            self.wf(),
        ensures
            r < self.blocks().len(),
            r > 0 ==> key_le(self.blocks()[r as int][0].0, key@),
            r + 1 < self.blocks().len() ==> key_lt(key@, self.blocks()[r + 1][0].0),
    {
        let n: usize = self.block_meta.len();
        let ghost blocks = self.blocks();
        proof {
            self.lemma_wf();
        }
        let mut lo: usize = 0;
        let mut hi: usize = n;
        while lo < hi
            invariant
                self.wf(),
                blocks == self.blocks(),
                blocks_ordered(blocks),
                n == self.block_meta@.len(),
                n == blocks.len(),
                lo <= hi <= n,
                forall|j: int| 0 <= j < lo ==> key_le((#[trigger] blocks[j])[0].0, key@),
                forall|j: int| hi <= j < n ==> key_lt(key@, (#[trigger] blocks[j])[0].0),
            decreases hi - lo,
        {
            let mid: usize = lo + (hi - lo) / 2;
            assert(block_ok(self.data(), self.metas(), mid as int));
            assert(self.metas()[mid as int] == self.block_meta@[mid as int]@);
            if key_less_eq(self.block_meta[mid].first_key.as_slice(), key) {
                proof {
                    assert forall|j: int| 0 <= j < mid + 1 implies key_le(
                        (#[trigger] blocks[j])[0].0,
                        key@,
                    ) by {
                        if j < mid {
                            crate::entries::lemma_blocks_chain(blocks, j, mid as int);
                            crate::key::lemma_key_lt_le(
                                blocks[j][0].0,
                                blocks[mid as int][0].0,
                                key@,
                            );
                        }
                    }
                }
                lo = mid + 1;
            } else {
                proof {
                    crate::key::lemma_key_lt_total(blocks[mid as int][0].0, key@);
                    assert forall|j: int| mid <= j < n implies key_lt(
                        key@,
                        (#[trigger] blocks[j])[0].0,
                    ) by {
                        if j > mid {
                            crate::entries::lemma_blocks_chain(blocks, mid as int, j);
                            crate::key::lemma_key_lt_transitive(
                                key@,
                                blocks[mid as int][0].0,
                                blocks[j][0].0,
                            );
                        }
                    }
                }
                hi = mid;
            }
        }
        if lo == 0 {
            0
        } else {
            lo - 1
        }
    }

    /// Tells whether the table may hold `key`: whether it has no filter, or
    /// the fingerprint of the key cannot be taken, or its filter lets the
    /// fingerprint through. A table that may not hold the key does not hold it.
    pub fn may_hold(&self, key: &[u8]) -> (r: bool)
        requires
            self.wf(),
        ensures
            r == (self.filter() is Some && hashable(key@) ==> self.filter()->0.admits(
                fingerprint(key@),
            )),
            !r ==> crate::entries::lookup(self@, key@) is None,
    {
        proof {
            crate::entries::lemma_lookup_index(self@, key@);
        }
        match &self.bloom {
            Some(bloom) => match try_fingerprint(key) {
                Some(h) => bloom.may_contain(h),
                None => true,
            },
            None => true,
        }
    }

    /// The number of blocks.
    pub fn num_of_blocks(&self) -> (r: usize)
        ensures
            r == self.blocks().len(),
    {
        self.block_meta.len()
    }

    /// The first key of the table.
    pub fn first_key(&self) -> (r: &[u8])
        requires
            self.wf(),
        ensures
            r@ == self@[0].0,
    {
        proof {
            self.lemma_wf();
            assert(block_ok(self.data(), self.metas(), 0));
        }
        self.first_key.as_slice()
    }

    /// The last key of the table.
    pub fn last_key(&self) -> (r: &[u8])
        requires
            self.wf(),
        ensures
            r@ == self@.last().0,
    {
        proof {
            self.lemma_wf();
            let blocks = self.blocks();
            assert(block_ok(self.data(), self.metas(), blocks.len() - 1));
            assert forall|j: int| 0 <= j < blocks.len() implies (#[trigger] blocks[j]).len() > 0 by {
                assert(block_ok(self.data(), self.metas(), j));
            }
            crate::entries::lemma_concat_last(blocks, 0);
        }
        self.last_key.as_slice()
    }

    /// The size of the file that holds the table.
    pub fn table_size(&self) -> (r: usize)
        ensures
            r == self.file_bytes().len(),
    {
        self.file.size()
    }

    /// The bytes of the file that holds the table.
    pub fn file_contents(&self) -> (r: &[u8])
        ensures
            r@ == self.file_bytes(),
    {
        self.file.bytes()
    }

    /// The identifier of the table.
    pub fn sst_id(&self) -> (r: usize)
        ensures
            r == self.id_spec(),
    {
        self.id
    }
}

} // verus!
