//! Blocks: sorted pages of key-value entries with prefix-compressed keys.
//!
//! A block is a data region of entries laid end to end, followed in its
//! encoded form by the offset of each entry and the number of entries, all
//! integers big-endian:
//!
//! ```text
//! entry: u16 overlap | u16 rest_len | rest | u16 value_len | value
//! block: entry .. entry | u16 offset .. u16 offset | u16 count
//! ```
//!
//! The key of an entry is the first `overlap` bytes of the block's first key
//! followed by `rest`.

pub mod builder;
pub mod iterator;

use bytes::Bytes;
use crate::buffer::buffer_from_slice;
use crate::entries::Entry;
use crate::error::LsmError;
use crate::key::{key_less, key_lt};
use vstd::prelude::*;
use vstd::slice::{slice_subrange, slice_to_vec};

verus! {

/// The largest number that a length or offset field of a block can hold.
pub const FIELD_MAX: usize = 0xFFFF;

/// The big-endian number held in the two bytes at `i`.
pub open spec fn be16(s: Seq<u8>, i: int) -> int {
    s[i] as int * 256 + s[i + 1] as int
}

/// The two bytes that hold `x` big-endian.
pub open spec fn be16_bytes(x: int) -> Seq<u8> {
    seq![(x / 256) as u8, (x % 256) as u8]
}

/// Length of the prefix that the entry at `off` shares with the first key.
pub open spec fn entry_overlap(data: Seq<u8>, off: int) -> int {
    be16(data, off)
}

/// Length of the key suffix stored in the entry at `off`.
pub open spec fn entry_rest_len(data: Seq<u8>, off: int) -> int {
    be16(data, off + 2)
}

/// Where the value of the entry at `off` starts.
pub open spec fn entry_value_start(data: Seq<u8>, off: int) -> int {
    off + 6 + entry_rest_len(data, off)
}

/// Length of the value of the entry at `off`.
pub open spec fn entry_value_len(data: Seq<u8>, off: int) -> int {
    be16(data, off + 4 + entry_rest_len(data, off))
}

/// Where the entry at `off` ends.
pub open spec fn entry_end(data: Seq<u8>, off: int) -> int {
    entry_value_start(data, off) + entry_value_len(data, off)
}

/// The entry at `off` lies within the data region.
pub open spec fn entry_fits(data: Seq<u8>, off: int) -> bool {
    &&& 0 <= off
    &&& off + 4 <= data.len()
    &&& entry_value_start(data, off) <= data.len()
    &&& entry_end(data, off) <= data.len()
}

/// The key suffix stored in the entry at `off`.
pub open spec fn entry_rest(data: Seq<u8>, off: int) -> Seq<u8> {
    data.subrange(off + 4, off + 4 + entry_rest_len(data, off))
}

/// The value of the entry at `off`.
pub open spec fn entry_value(data: Seq<u8>, off: int) -> Seq<u8> {
    data.subrange(entry_value_start(data, off), entry_end(data, off))
}

/// The first key of a block: the suffix of its first entry, which shares nothing.
pub open spec fn block_first_key(data: Seq<u8>) -> Seq<u8> {
    entry_rest(data, 0)
}

/// The key of the entry at `off`, rebuilt from the first key and the stored suffix.
pub open spec fn entry_key(data: Seq<u8>, off: int) -> Seq<u8> {
    block_first_key(data).subrange(0, entry_overlap(data, off)) + entry_rest(data, off)
}

/// The entry at `off` is laid out within the data region, shares no more
/// than the first key has, and its key is non-empty and fits a length field.
pub open spec fn entry_ok(data: Seq<u8>, off: int) -> bool {
    &&& entry_fits(data, off)
    &&& entry_overlap(data, off) <= entry_rest_len(data, 0)
    &&& 1 <= entry_overlap(data, off) + entry_rest_len(data, off) <= FIELD_MAX
}

/// The entry after the i-th starts where the i-th ends, and its key sorts after.
pub open spec fn entries_linked(data: Seq<u8>, offsets: Seq<u16>, i: int) -> bool {
    &&& offsets[i + 1] == entry_end(data, offsets[i] as int)
    &&& key_lt(entry_key(data, offsets[i] as int), entry_key(data, offsets[i + 1] as int))
}

/// A data region and its offsets form a block: the entries lie end to end from
/// offset 0 to the end of the region, the first shares nothing, and the keys are
/// strictly increasing. The block without entries has no data.
pub open spec fn block_wf(data: Seq<u8>, offsets: Seq<u16>) -> bool {
    if offsets.len() == 0 {
        data.len() == 0
    } else {
        &&& offsets.len() <= FIELD_MAX
        &&& offsets[0] == 0
        &&& entry_overlap(data, 0) == 0
        &&& forall|i: int|
            #![trigger offsets[i]]
            0 <= i < offsets.len() ==> entry_ok(data, offsets[i] as int)
        &&& forall|i: int|
            0 <= i < offsets.len() - 1 ==> #[trigger] entries_linked(data, offsets, i)
        &&& entry_end(data, offsets[offsets.len() - 1] as int) == data.len()
    }
}

/// The entries of a block, in order.
pub open spec fn block_entries(data: Seq<u8>, offsets: Seq<u16>) -> Seq<Entry> {
    Seq::new(
        offsets.len(),
        |i: int| (entry_key(data, offsets[i] as int), entry_value(data, offsets[i] as int)),
    )
}

/// The offsets of a block as bytes, two for each.
pub open spec fn offsets_bytes(offsets: Seq<u16>) -> Seq<u8>
    decreases offsets.len(),
{
    if offsets.len() == 0 {
        Seq::empty()
    } else {
        offsets_bytes(offsets.drop_last()) + be16_bytes(offsets.last() as int)
    }
}

/// The encoded form of a block.
pub open spec fn block_bytes(data: Seq<u8>, offsets: Seq<u16>) -> Seq<u8> {
    data + offsets_bytes(offsets) + be16_bytes(offsets.len() as int)
}

/// The number of entries that the last two bytes of an encoded block announce.
pub open spec fn framed_count(d: Seq<u8>) -> int {
    be16(d, d.len() - 2)
}

/// The bytes end in a count and as many offsets as it announces.
pub open spec fn framed(d: Seq<u8>) -> bool {
    d.len() >= 2 && 2 + 2 * framed_count(d) <= d.len()
}

/// The data region of an encoded block.
pub open spec fn framed_data(d: Seq<u8>) -> Seq<u8> {
    d.subrange(0, d.len() - 2 - 2 * framed_count(d))
}

/// The offsets of an encoded block.
pub open spec fn framed_offsets(d: Seq<u8>) -> Seq<u16> {
    Seq::new(
        framed_count(d) as nat,
        |i: int| be16(d, d.len() - 2 - 2 * framed_count(d) + 2 * i) as u16,
    )
}

/// The bytes are the encoded form of a block, or empty.
#[verifier::opaque]
pub open spec fn valid_block_bytes(d: Seq<u8>) -> bool {
    d.len() == 0 || (framed(d) && block_wf(framed_data(d), framed_offsets(d)))
}

/// The data region that decoding `d` gives.
pub open spec fn decoded_data(d: Seq<u8>) -> Seq<u8> {
    if d.len() == 0 {
        Seq::empty()
    } else {
        framed_data(d)
    }
}

/// The offsets that decoding `d` gives.
pub open spec fn decoded_offsets(d: Seq<u8>) -> Seq<u16> {
    if d.len() == 0 {
        Seq::empty()
    } else {
        framed_offsets(d)
    }
}

/// The entries of the block that decoding `d` gives.
#[verifier::opaque]
pub open spec fn decoded_entries(d: Seq<u8>) -> Seq<Entry> {
    block_entries(decoded_data(d), decoded_offsets(d))
}

/// The entries that valid bytes decode to are strictly increasing by key, and
/// every key is non-empty and at most 65535 bytes long.
pub proof fn lemma_decoded_entries(d: Seq<u8>)
    requires
        valid_block_bytes(d),
    ensures
        crate::entries::sorted(decoded_entries(d)),
        crate::entries::keys_bounded(decoded_entries(d)),
        crate::entries::values_bounded(decoded_entries(d)),
{
    reveal(valid_block_bytes);
    reveal(decoded_entries);
    lemma_block_entries_sorted(decoded_data(d), decoded_offsets(d));
}

/// Two bytes hold a number below 65536, and reading them gives it back.
pub proof fn lemma_be16_roundtrip(x: int)
    requires
        0 <= x <= FIELD_MAX,
    ensures
        be16_bytes(x).len() == 2,
        be16(be16_bytes(x), 0) == x,
{
}

/// The encoded offsets take two bytes each, and the i-th pair holds the i-th offset.
pub proof fn lemma_offsets_bytes(offsets: Seq<u16>)
    ensures
        offsets_bytes(offsets).len() == 2 * offsets.len(),
        forall|i: int|
            0 <= i < offsets.len() ==> be16(offsets_bytes(offsets), 2 * i) == #[trigger] offsets[i],
    decreases offsets.len(),
{
    if offsets.len() > 0 {
        let init = offsets.drop_last();
        lemma_offsets_bytes(init);
        let b = offsets_bytes(offsets);
        assert forall|i: int| 0 <= i < offsets.len() implies be16(b, 2 * i) == #[trigger] offsets[i] by {
            if i < init.len() {
                assert(init[i] == offsets[i]);
                assert(b[2 * i] == offsets_bytes(init)[2 * i]);
                assert(b[2 * i + 1] == offsets_bytes(init)[2 * i + 1]);
            } else {
                lemma_be16_roundtrip(offsets.last() as int);
                assert(b[2 * i] == be16_bytes(offsets.last() as int)[0]);
                assert(b[2 * i + 1] == be16_bytes(offsets.last() as int)[1]);
            }
        }
    }
}

/// Decoding gives back what was encoded: the encoded form of a data region
/// and at most 65535 offsets is framed, and its data region and offsets are
/// the ones that were encoded.
pub proof fn lemma_decode_encode(data: Seq<u8>, offsets: Seq<u16>)
    requires
        offsets.len() <= FIELD_MAX,
    ensures
        framed(block_bytes(data, offsets)),
        framed_data(block_bytes(data, offsets)) == data,
        framed_offsets(block_bytes(data, offsets)) == offsets,
        decoded_data(block_bytes(data, offsets)) == data,
        decoded_offsets(block_bytes(data, offsets)) == offsets,
        block_wf(data, offsets) ==> valid_block_bytes(block_bytes(data, offsets)),
{
    reveal(valid_block_bytes);
    let d = block_bytes(data, offsets);
    let n = offsets.len() as int;
    lemma_offsets_bytes(offsets);
    lemma_be16_roundtrip(n);
    assert(d.len() == data.len() + 2 * n + 2);
    assert(d[d.len() - 2] == be16_bytes(n)[0]);
    assert(d[d.len() - 1] == be16_bytes(n)[1]);
    assert(framed_count(d) == n);
    assert(framed_data(d) =~= data);
    assert forall|i: int| 0 <= i < n implies framed_offsets(d)[i] == offsets[i] by {
        let p = d.len() - 2 - 2 * n + 2 * i;
        assert(d[p] == offsets_bytes(offsets)[2 * i]);
        assert(d[p + 1] == offsets_bytes(offsets)[2 * i + 1]);
        assert(be16(offsets_bytes(offsets), 2 * i) == offsets[i]);
    }
    assert(framed_offsets(d) =~= offsets);
}

/// Encoding gives back what was decoded: framed bytes are the encoded form of
/// their data region and offsets.
pub proof fn lemma_encode_decode(d: Seq<u8>)
    requires
        framed(d),
    ensures
        block_bytes(framed_data(d), framed_offsets(d)) == d,
{
    let data = framed_data(d);
    let offsets = framed_offsets(d);
    let n = framed_count(d);
    let e = block_bytes(data, offsets);
    lemma_offsets_bytes(offsets);
    assert(0 <= n <= FIELD_MAX);
    assert(e.len() == d.len());
    let base = d.len() - 2 - 2 * n;
    assert forall|j: int| 0 <= j < d.len() implies e[j] == d[j] by {
        if j < base {
        } else if j < d.len() - 2 {
            let i = (j - base) / 2;
            assert(0 <= i < n);
            assert(be16(offsets_bytes(offsets), 2 * i) == offsets[i]);
            assert(offsets[i] == be16(d, base + 2 * i) as u16);
            assert(e[base + 2 * i] == offsets_bytes(offsets)[2 * i]);
            assert(e[base + 2 * i + 1] == offsets_bytes(offsets)[2 * i + 1]);
            assert(j == base + 2 * i || j == base + 2 * i + 1);
        } else {
            assert(e[d.len() - 2] == be16_bytes(n)[0]);
            assert(e[d.len() - 1] == be16_bytes(n)[1]);
        }
    }
    assert(e =~= d);
}

/// What an entry holds does not change when bytes are appended to the data region.
pub proof fn lemma_entry_stable(data: Seq<u8>, ext: Seq<u8>, off: int)
    requires
        entry_fits(data, off),
        data.len() <= ext.len(),
        ext.subrange(0, data.len() as int) == data,
    ensures
        entry_fits(ext, off),
        entry_overlap(ext, off) == entry_overlap(data, off),
        entry_rest_len(ext, off) == entry_rest_len(data, off),
        entry_value_len(ext, off) == entry_value_len(data, off),
        entry_end(ext, off) == entry_end(data, off),
        entry_rest(ext, off) == entry_rest(data, off),
        entry_value(ext, off) == entry_value(data, off),
{
    assert forall|i: int| 0 <= i < data.len() implies ext[i] == data[i] by {
        assert(ext.subrange(0, data.len() as int)[i] == ext[i]);
    }
    assert(entry_rest(ext, off) =~= entry_rest(data, off));
    assert(entry_value(ext, off) =~= entry_value(data, off));
}

/// In a well-formed block the i-th entry starts at least `6 * i` bytes in.
pub proof fn lemma_offsets_spread(data: Seq<u8>, offsets: Seq<u16>, i: int)
    requires
        block_wf(data, offsets),
        0 <= i < offsets.len(),
    ensures
        offsets[i] >= 6 * i,
    decreases i,
{
    if i > 0 {
        lemma_offsets_spread(data, offsets, i - 1);
        assert(entry_ok(data, offsets[i - 1] as int));
        assert(entries_linked(data, offsets, i - 1));
    }
}

/// In a well-formed block every entry sorts before each later one.
pub proof fn lemma_block_keys_sorted(data: Seq<u8>, offsets: Seq<u16>, i: int, j: int)
    requires
        block_wf(data, offsets),
        0 <= i < j < offsets.len(),
    ensures
        key_lt(entry_key(data, offsets[i] as int), entry_key(data, offsets[j] as int)),
    decreases j - i,
{
    assert(entries_linked(data, offsets, j - 1));
    if i + 1 < j {
        lemma_block_keys_sorted(data, offsets, i, j - 1);
        crate::key::lemma_key_lt_transitive(
            entry_key(data, offsets[i] as int),
            entry_key(data, offsets[j - 1] as int),
            entry_key(data, offsets[j] as int),
        );
    }
}

/// The entries of a well-formed block are strictly increasing by key, and
/// every key is non-empty and at most 65535 bytes long.
pub proof fn lemma_block_entries_sorted(data: Seq<u8>, offsets: Seq<u16>)
    requires
        block_wf(data, offsets),
    ensures
        crate::entries::sorted(block_entries(data, offsets)),
        crate::entries::keys_bounded(block_entries(data, offsets)),
        crate::entries::values_bounded(block_entries(data, offsets)),
{
    let s = block_entries(data, offsets);
    assert forall|i: int, j: int| 0 <= i < j < s.len() implies key_lt(s[i].0, s[j].0) by {
        lemma_block_keys_sorted(data, offsets, i, j);
    }
    assert forall|i: int| 0 <= i < s.len() implies 1 <= (#[trigger] s[i]).0.len() <= FIELD_MAX
        && s[i].1.len() <= FIELD_MAX by {
        assert(entry_ok(data, offsets[i] as int));
        assert(entry_ok(data, offsets[0] as int));
    }
}

/// The bytes of an entry that shares `overlap` bytes with the first key.
pub open spec fn entry_bytes(overlap: int, key: Seq<u8>, value: Seq<u8>) -> Seq<u8> {
    be16_bytes(overlap) + be16_bytes(key.len() - overlap) + key.skip(overlap) + be16_bytes(
        value.len() as int,
    ) + value
}

/// Every offset and length that a well-formed block holds is below 65536, so
/// its data region is shorter than four times that.
pub proof fn lemma_block_data_bounded(data: Seq<u8>, offsets: Seq<u16>)
    requires
        block_wf(data, offsets),
    ensures
        data.len() <= 3 * FIELD_MAX + 6,
{
    if offsets.len() > 0 {
        assert(entry_ok(data, offsets[offsets.len() - 1] as int));
    }
}

/// An entry appended to a data region reads back as it was written.
#[verifier::rlimit(40)]
pub proof fn lemma_entry_written(data: Seq<u8>, key: Seq<u8>, value: Seq<u8>, overlap: int)
    requires
        key.len() <= FIELD_MAX,
        value.len() <= FIELD_MAX,
        0 <= overlap <= key.len(),
    ensures
        ({
            let ext = data + entry_bytes(overlap, key, value);
            let off = data.len() as int;
            &&& ext.len() == data.len() + 6 + key.len() - overlap + value.len()
            &&& ext.subrange(0, off) == data
            &&& entry_overlap(ext, off) == overlap
            &&& entry_rest_len(ext, off) == key.len() - overlap
            &&& entry_value_len(ext, off) == value.len()
            &&& entry_end(ext, off) == ext.len()
            &&& entry_fits(ext, off)
            &&& entry_rest(ext, off) == key.skip(overlap)
            &&& entry_value(ext, off) == value
        }),
{
    let off = data.len() as int;
    let rest_len = key.len() - overlap;
    let h1 = be16_bytes(overlap);
    let h2 = be16_bytes(rest_len);
    let h3 = be16_bytes(value.len() as int);
    let rest = key.skip(overlap);
    let eb = entry_bytes(overlap, key, value);
    let ext = data + eb;
    lemma_be16_roundtrip(overlap);
    lemma_be16_roundtrip(rest_len);
    lemma_be16_roundtrip(value.len() as int);
    assert(eb.len() == 6 + rest_len + value.len());
    assert(eb[0] == h1[0] && eb[1] == h1[1]);
    assert(eb[2] == h2[0] && eb[3] == h2[1]);
    assert(eb[4 + rest_len] == h3[0] && eb[4 + rest_len + 1] == h3[1]);
    assert(ext.subrange(0, off) =~= data);
    assert(ext[off] == eb[0] && ext[off + 1] == eb[1] && ext[off + 2] == eb[2] && ext[off + 3]
        == eb[3]);
    assert(entry_overlap(ext, off) == overlap);
    assert(entry_rest_len(ext, off) == rest_len);
    assert(ext[off + 4 + rest_len] == eb[4 + rest_len] && ext[off + 4 + rest_len + 1] == eb[4
        + rest_len + 1]);
    assert(entry_value_len(ext, off) == value.len());
    assert forall|j: int| 0 <= j < rest_len implies ext[off + 4 + j] == rest[j] by {
        assert(ext[off + 4 + j] == eb[4 + j]);
    }
    assert(entry_rest(ext, off) =~= rest);
    assert forall|j: int| 0 <= j < value.len() implies ext[off + 6 + rest_len + j] == value[j] by {
        assert(ext[off + 6 + rest_len + j] == eb[6 + rest_len + j]);
    }
    assert(entry_value(ext, off) =~= value);
}

/// After bytes are appended to the data region of a well-formed block, every
/// entry of the block is as before.
pub proof fn lemma_block_stable(data: Seq<u8>, offsets: Seq<u16>, ext: Seq<u8>)
    requires
        block_wf(data, offsets),
        data.len() <= ext.len(),
        ext.subrange(0, data.len() as int) == data,
    ensures
        offsets.len() > 0 ==> block_first_key(ext) == block_first_key(data) && entry_overlap(ext, 0)
            == 0 && entry_rest_len(ext, 0) == entry_rest_len(data, 0),
        forall|i: int|
            #![trigger offsets[i]]
            0 <= i < offsets.len() ==> entry_ok(ext, offsets[i] as int) && entry_end(
                ext,
                offsets[i] as int,
            ) == entry_end(data, offsets[i] as int) && entry_key(ext, offsets[i] as int)
                == entry_key(data, offsets[i] as int) && entry_value(ext, offsets[i] as int)
                == entry_value(data, offsets[i] as int),
        forall|i: int| 0 <= i < offsets.len() - 1 ==> #[trigger] entries_linked(ext, offsets, i),
{
    if offsets.len() > 0 {
        assert(entry_ok(data, offsets[0] as int));
        lemma_entry_stable(data, ext, 0);
        assert forall|i: int| #![trigger offsets[i]] 0 <= i < offsets.len() implies entry_ok(
            ext,
            offsets[i] as int,
        ) && entry_end(ext, offsets[i] as int) == entry_end(data, offsets[i] as int) && entry_key(
            ext,
            offsets[i] as int,
        ) == entry_key(data, offsets[i] as int) && entry_value(ext, offsets[i] as int)
            == entry_value(data, offsets[i] as int) by {
            assert(entry_ok(data, offsets[i] as int));
            lemma_entry_stable(data, ext, offsets[i] as int);
        }
        assert forall|i: int| 0 <= i < offsets.len() - 1 implies #[trigger] entries_linked(
            ext,
            offsets,
            i,
        ) by {
            assert(entries_linked(data, offsets, i));
            assert(entry_ok(data, offsets[i] as int));
            assert(entry_ok(data, offsets[i + 1] as int));
        }
    }
}

/// Appending an entry to the data region of a well-formed block, and its
/// offset to the offsets, gives a well-formed block with that entry added at
/// the end, provided that the new key sorts after the last one and that the
/// entry shares with the first key a prefix that the two keys have in common.
#[verifier::rlimit(40)]
pub proof fn lemma_append_entry(
    data: Seq<u8>,
    offsets: Seq<u16>,
    key: Seq<u8>,
    value: Seq<u8>,
    overlap: int,
)
    requires
        block_wf(data, offsets),
        data.len() <= FIELD_MAX,
        1 <= key.len() <= FIELD_MAX,
        value.len() <= FIELD_MAX,
        0 <= overlap <= key.len(),
        offsets.len() == 0 ==> overlap == 0,
        offsets.len() > 0 ==> overlap <= block_first_key(data).len() && key.subrange(0, overlap)
            == block_first_key(data).subrange(0, overlap),
        offsets.len() > 0 ==> key_lt(entry_key(data, offsets[offsets.len() - 1] as int), key),
    ensures
        block_wf(data + entry_bytes(overlap, key, value), offsets.push(data.len() as u16)),
        block_entries(data + entry_bytes(overlap, key, value), offsets.push(data.len() as u16))
            == block_entries(data, offsets).push((key, value)),
        entry_key(data + entry_bytes(overlap, key, value), data.len() as int) == key,
        block_first_key(data + entry_bytes(overlap, key, value)) == if offsets.len() == 0 {
            key
        } else {
            block_first_key(data)
        },
        (data + entry_bytes(overlap, key, value)).len() == data.len() + 6 + key.len() - overlap
            + value.len(),
{
    let n = offsets.len() as int;
    let off = data.len() as int;
    let ext = data + entry_bytes(overlap, key, value);
    let offs = offsets.push(off as u16);
    lemma_entry_written(data, key, value, overlap);
    lemma_block_stable(data, offsets, ext);
    if n == 0 {
        assert(key.skip(0) =~= key);
        assert(block_first_key(ext) == key);
        assert(block_first_key(ext).subrange(0, 0) + key =~= key);
    } else {
        assert(offsets[0] == 0);
        assert(key =~= key.subrange(0, overlap) + key.skip(overlap));
        lemma_offsets_spread(data, offsets, n - 1);
    }
    assert(entry_key(ext, off) == key);
    assert(entry_ok(ext, off));
    assert(offs[0] == 0);
    assert forall|i: int| #![trigger offs[i]] 0 <= i < offs.len() implies entry_ok(
        ext,
        offs[i] as int,
    ) by {
        if i < n {
            assert(offs[i] == offsets[i]);
        }
    }
    assert forall|i: int| 0 <= i < offs.len() - 1 implies #[trigger] entries_linked(
        ext,
        offs,
        i,
    ) by {
        assert(offs[i] == offsets[i]);
        if i < n - 1 {
            assert(offs[i + 1] == offsets[i + 1]);
            assert(entries_linked(ext, offsets, i));
        }
    }
    assert(block_wf(ext, offs));
    let new_entries = block_entries(ext, offs);
    let old_entries = block_entries(data, offsets);
    assert forall|i: int| 0 <= i < new_entries.len() implies new_entries[i] == old_entries.push(
        (key, value),
    )[i] by {
        if i < n {
            assert(offs[i] == offsets[i]);
        }
    }
    assert(new_entries =~= old_entries.push((key, value)));
}

/// Reads the big-endian number in the two bytes at `pos`.
pub fn read_u16(data: &[u8], pos: usize) -> (r: u16)
    requires
        pos + 2 <= data@.len(),
    ensures
        r == be16(data@, pos as int),
{
    let hi: u16 = data[pos] as u16;
    let lo: u16 = data[pos + 1] as u16;
    hi * 256 + lo
}

/// Appends `x` big-endian.
pub fn push_u16(buf: &mut Vec<u8>, x: u16)
    ensures
        final(buf)@ == old(buf)@ + be16_bytes(x as int),
{
    buf.push((x / 256) as u8);
    buf.push((x % 256) as u8);
    assert(buf@ =~= old(buf)@ + be16_bytes(x as int));
}

/// Appends a copy of `src[from..to]`.
pub fn push_range(buf: &mut Vec<u8>, src: &[u8], from: usize, to: usize)
    requires
        from <= to <= src@.len(),
    ensures
        final(buf)@ == old(buf)@ + src@.subrange(from as int, to as int),
{
    let mut i: usize = from;
    while i < to
        invariant
            from <= i <= to,
            to <= src@.len(),
            buf@ == old(buf)@ + src@.subrange(from as int, i as int),
        decreases to - i,
    {
        buf.push(src[i]);
        assert(src@.subrange(from as int, i + 1) =~= src@.subrange(from as int, i as int).push(
            src@[i as int],
        ));
        i = i + 1;
    }
}

/// Rebuilds the key of the entry at `off` from the first key and the stored suffix.
pub fn read_key(data: &[u8], first_key: &[u8], off: usize) -> (r: Vec<u8>)
    requires
        entry_fits(data@, off as int),
        entry_overlap(data@, off as int) <= first_key@.len(),
    ensures
        r@ == first_key@.subrange(0, entry_overlap(data@, off as int)) + entry_rest(
            data@,
            off as int,
        ),
{
    let len: usize = data.len();
    assert(off + 4 <= len);
    let overlap: usize = read_u16(data, off) as usize;
    let rest_len: usize = read_u16(data, off + 2) as usize;
    let mut key: Vec<u8> = Vec::new();
    push_range(&mut key, first_key, 0, overlap);
    push_range(&mut key, data, off + 4, off + 4 + rest_len);
    assert(key@ =~= first_key@.subrange(0, overlap as int) + entry_rest(data@, off as int));
    key
}

/// Tells whether a data region and its offsets form a block.
#[verifier::rlimit(40)]
pub fn check_layout(data: &[u8], offsets: &[u16]) -> (ok: bool)
    ensures
        ok == block_wf(data@, offsets@),
{
    let n: usize = offsets.len();
    let len: usize = data.len();
    if n == 0 {
        return len == 0;
    }
    if n > FIELD_MAX || offsets[0] != 0 || len < 4 {
        proof {
            if n <= FIELD_MAX && offsets[0] == 0 {
                assert(!entry_ok(data@, offsets@[0] as int));
            }
        }
        return false;
    }
    let first_len: usize = read_u16(data, 2) as usize;
    if 6 + first_len > len {
        assert(!entry_ok(data@, offsets@[0] as int));
        return false;
    }
    let first_key: &[u8] = slice_subrange(data, 4, 4 + first_len);
    assert(first_key@ == block_first_key(data@));
    let mut prev_key: Vec<u8> = Vec::new();
    let mut next_off: usize = 0;
    let mut i: usize = 0;
    while i < n
        invariant
            0 <= i <= n,
            n == offsets@.len(),
            len == data@.len(),
            0 < n <= FIELD_MAX,
            offsets@[0] == 0,
            first_len == entry_rest_len(data@, 0),
            6 + first_len <= len,
            first_key@ == block_first_key(data@),
            next_off <= len,
            i == 0 ==> next_off == 0,
            i > 0 ==> entry_overlap(data@, 0) == 0,
            i > 0 ==> next_off == entry_end(data@, offsets@[i - 1] as int),
            i > 0 ==> prev_key@ == entry_key(data@, offsets@[i - 1] as int),
            forall|j: int| #![trigger offsets@[j]] 0 <= j < i ==> entry_ok(data@, offsets@[j] as int),
            forall|j: int| 0 <= j < i - 1 ==> #[trigger] entries_linked(data@, offsets@, j),
        decreases n - i,
    {
        let off: usize = offsets[i] as usize;
        if off != next_off {
            proof {
                if i > 0 {
                    assert(!entries_linked(data@, offsets@, i - 1));
                }
            }
            return false;
        }
        if off + 4 > len {
            assert(!entry_ok(data@, offsets@[i as int] as int));
            return false;
        }
        let overlap: usize = read_u16(data, off) as usize;
        let rest_len: usize = read_u16(data, off + 2) as usize;
        if off + 6 + rest_len > len {
            assert(!entry_ok(data@, offsets@[i as int] as int));
            return false;
        }
        let value_len: usize = read_u16(data, off + 4 + rest_len) as usize;
        if off + 6 + rest_len + value_len > len || overlap > first_len || overlap + rest_len == 0
            || overlap + rest_len > FIELD_MAX {
            assert(!entry_ok(data@, offsets@[i as int] as int));
            return false;
        }
        if i == 0 && overlap != 0 {
            return false;
        }
        assert(entry_ok(data@, offsets@[i as int] as int));
        let key = read_key(data, first_key, off);
        assert(key@ == entry_key(data@, offsets@[i as int] as int));
        if i > 0 && !key_less(prev_key.as_slice(), key.as_slice()) {
            assert(!entries_linked(data@, offsets@, i - 1));
            return false;
        }
        proof {
            if i > 0 {
                assert(entries_linked(data@, offsets@, i - 1));
            }
        }
        prev_key = key;
        next_off = off + 6 + rest_len + value_len;
        i = i + 1;
    }
    next_off == len
}

/// An immutable sorted page of key-value entries.
pub struct Block {
    /// The entries, laid end to end.
    pub data: Vec<u8>,
    /// Where each entry starts in `data`.
    pub offsets: Vec<u16>,
}

impl View for Block {
    type V = Seq<Entry>;

    /// The entries of the block, in order.
    open spec fn view(&self) -> Seq<Entry> {
        block_entries(self.data@, self.offsets@)
    }
}

impl Block {
    /// The data region and the offsets form a block.
    pub open spec fn wf(&self) -> bool {
        block_wf(self.data@, self.offsets@)
    }

    /// The encoded form of this block.
    pub open spec fn encoded(&self) -> Seq<u8> {
        block_bytes(self.data@, self.offsets@)
    }

    /// The encoded form: the data region, the offsets and the number of entries.
    pub fn encode(&self) -> (r: Bytes)
        requires
            self.offsets@.len() <= FIELD_MAX,
        ensures
            crate::buffer::buffer_bytes(r) == self.encoded(),
    {
        let v = self.encode_to_vec();
        buffer_from_slice(v.as_slice())
    }

    /// The encoded form as a vector of bytes.
    pub fn encode_to_vec(&self) -> (r: Vec<u8>)
        requires
            self.offsets@.len() <= FIELD_MAX,
        ensures
            r@ == self.encoded(),
    {
        let n: usize = self.offsets.len();
        let mut encoded: Vec<u8> = Vec::new();
        push_range(&mut encoded, self.data.as_slice(), 0, self.data.len());
        assert(self.data@.subrange(0, self.data@.len() as int) =~= self.data@);
        assert(encoded@ =~= self.data@);
        let mut i: usize = 0;
        while i < n
            invariant
                0 <= i <= n,
                n == self.offsets@.len(),
                encoded@ == self.data@ + offsets_bytes(self.offsets@.subrange(0, i as int)),
            decreases n - i,
        {
            push_u16(&mut encoded, self.offsets[i]);
            proof {
                let next = self.offsets@.subrange(0, i + 1);
                assert(next.drop_last() =~= self.offsets@.subrange(0, i as int));
                assert(next.last() == self.offsets@[i as int]);
            }
            i = i + 1;
        }
        assert(self.offsets@.subrange(0, n as int) =~= self.offsets@);
        push_u16(&mut encoded, n as u16);
        encoded
    }

    /// Rebuilds a block from its encoded form. Empty input gives the block
    /// without entries. Bytes that are not the encoded form of a block are
    /// reported as corruption.
    pub fn decode(data: &[u8]) -> (r: Result<Block, LsmError>)
        ensures
            r is Ok <==> valid_block_bytes(data@),
            r matches Ok(b) ==> b.wf() && b.data@ == decoded_data(data@) && b.offsets@
                == decoded_offsets(data@) && b@ == decoded_entries(data@),
            r matches Err(e) ==> e == LsmError::Corruption,
    {
        reveal(valid_block_bytes);
        reveal(decoded_entries);
        let len: usize = data.len();
        if len == 0 {
            return Ok(Block { data: Vec::new(), offsets: Vec::new() });
        }
        if len < 2 {
            return Err(LsmError::Corruption);
        }
        let n: usize = read_u16(data, len - 2) as usize;
        if 2 + 2 * n > len {
            return Err(LsmError::Corruption);
        }
        let base: usize = len - 2 - 2 * n;
        let mut offsets: Vec<u16> = Vec::new();
        let mut i: usize = 0;
        while i < n
            invariant
                0 <= i <= n,
                len == data@.len(),
                base + 2 * n + 2 == len,
                n == framed_count(data@),
                offsets@.len() == i,
                forall|j: int| 0 <= j < i ==> offsets@[j] == framed_offsets(data@)[j],
            decreases n - i,
        {
            offsets.push(read_u16(data, base + 2 * i));
            i = i + 1;
        }
        assert(offsets@ =~= framed_offsets(data@));
        let kv = slice_to_vec(slice_subrange(data, 0, base));
        if !check_layout(kv.as_slice(), offsets.as_slice()) {
            return Err(LsmError::Corruption);
        }
        Ok(Block { data: kv, offsets })
    }

    /// The number of entries.
    pub fn len(&self) -> (r: usize)
        ensures
            r == self@.len(),
    {
        self.offsets.len()
    }

    /// The first key of a block that has entries.
    pub fn first_key(&self) -> (r: &[u8])
        requires
            self.wf(),
            self@.len() > 0,
        ensures
            r@ == self@[0].0,
    {
        assert(entry_ok(self.data@, self.offsets@[0] as int));
        let first_key_len: usize = read_u16(self.data.as_slice(), 2) as usize;
        let r = slice_subrange(self.data.as_slice(), 4, 4 + first_key_len);
        assert(self@[0].0 =~= r@) by {
            assert(block_first_key(self.data@).subrange(0, 0) =~= Seq::<u8>::empty());
        }
        r
    }

    /// The last key of a block that has entries.
    pub fn last_key(&self) -> (r: Vec<u8>)
        requires
            self.wf(),
            self@.len() > 0,
        ensures
            r@ == self@.last().0,
    {
        let n: usize = self.offsets.len();
        assert(entry_ok(self.data@, self.offsets@[0] as int));
        assert(entry_ok(self.data@, self.offsets@[n - 1] as int));
        let first_key_len: usize = read_u16(self.data.as_slice(), 2) as usize;
        let first_key = slice_subrange(self.data.as_slice(), 4, 4 + first_key_len);
        read_key(self.data.as_slice(), first_key, self.offsets[n - 1] as usize)
    }
}

/// Decoding the encoded form of a well-formed block gives the block back,
/// with the same entries.
pub proof fn lemma_block_roundtrip(b: Block)
    requires
        b.wf(),
    ensures
        valid_block_bytes(b.encoded()),
        decoded_data(b.encoded()) == b.data@,
        decoded_offsets(b.encoded()) == b.offsets@,
        decoded_entries(b.encoded()) == b@,
        b.encoded().len() == b.data@.len() + 2 * b.offsets@.len() + 2,
{
    reveal(decoded_entries);
    lemma_decode_encode(b.data@, b.offsets@);
    lemma_offsets_bytes(b.offsets@);
}

/// The first key of a block with entries is the key suffix that its first
/// entry stores, and that entry shares nothing.
pub proof fn lemma_first_key_from_first_entry(b: Block)
    requires
        b.wf(),
        b@.len() > 0,
    ensures
        entry_overlap(b.data@, 0) == 0,
        b@[0].0 == entry_rest(b.data@, 0),
{
    assert(block_first_key(b.data@).subrange(0, 0) =~= Seq::<u8>::empty());
    assert(b@[0].0 =~= entry_rest(b.data@, 0));
}

} // verus!
