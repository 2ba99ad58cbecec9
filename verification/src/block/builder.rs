//! Packs sorted entries into a block of bounded size.

use crate::entries::{keys_bounded, sorted, Entry};
use crate::key::{
    common_prefix_len, key_lt, key_to_vec, lemma_common_prefix_len, lemma_common_prefix_len_unique,
};
use super::{
    block_entries, block_first_key, block_wf, entry_bytes, entry_key, entry_ok, lemma_append_entry,
    lemma_block_data_bounded, lemma_block_entries_sorted, push_range, push_u16, Block, FIELD_MAX,
};
use vstd::prelude::*;

verus! {

/// The bytes that an entry adds to the encoded form of a block whose first
/// key is `first_key`: the key suffix and the value, two bytes each for the
/// shared length, the suffix length and the value length, and two for the offset.
pub open spec fn entry_cost(first_key: Seq<u8>, key: Seq<u8>, value: Seq<u8>) -> int {
    key.len() - common_prefix_len(key, first_key) + value.len() + 8
}

/// Length of the longest common prefix of two byte strings.
pub fn shared_prefix(a: &[u8], b: &[u8]) -> (r: usize)
    ensures
        r == common_prefix_len(a@, b@),
{
    let mut common: usize = 0;
    while common < a.len() && common < b.len() && a[common] == b[common]
        invariant
            common <= a@.len(),
            common <= b@.len(),
            forall|j: int| 0 <= j < common ==> a@[j] == b@[j],
        decreases a@.len() - common,
    {
        common = common + 1;
    }
    proof {
        lemma_common_prefix_len_unique(a@, b@, common as int);
    }
    common
}

/// Appends to `data` the entry that shares `overlap` bytes with the first key,
/// and to `offsets` where it starts.
fn write_entry(
    data: &mut Vec<u8>,
    offsets: &mut Vec<u16>,
    key: &[u8],
    value: &[u8],
    overlap: usize,
)
    requires
        old(data)@.len() <= FIELD_MAX,
        key@.len() <= FIELD_MAX,
        value@.len() <= FIELD_MAX,
        overlap <= key@.len(),
    ensures
        final(data)@ == old(data)@ + entry_bytes(overlap as int, key@, value@),
        final(offsets)@ == old(offsets)@.push(old(data)@.len() as u16),
{
    let key_len: usize = key.len();
    let value_len: usize = value.len();
    offsets.push(data.len() as u16);
    push_u16(data, overlap as u16);
    push_u16(data, (key_len - overlap) as u16);
    push_range(data, key, overlap, key_len);
    push_u16(data, value_len as u16);
    push_range(data, value, 0, value_len);
    proof {
        assert(key@.subrange(overlap as int, key_len as int) =~= key@.skip(overlap as int));
        assert(value@.subrange(0, value_len as int) =~= value@);
        assert(data@ =~= old(data)@ + entry_bytes(overlap as int, key@, value@));
    }
}

/// The first key of a run of entries; empty where the run has none.
pub open spec fn first_key_of(entries: Seq<Entry>) -> Seq<u8> {
    if entries.len() > 0 {
        entries[0].0
    } else {
        Seq::<u8>::empty()
    }
}

/// The size of the encoded form of a block that holds `entries`: two bytes
/// for the number of entries and what each entry adds.
pub open spec fn block_len(entries: Seq<Entry>) -> int
    decreases entries.len(),
{
    if entries.len() == 0 {
        2
    } else {
        block_len(entries.drop_last()) + entry_cost(
            first_key_of(entries.drop_last()),
            entries.last().0,
            entries.last().1,
        )
    }
}

/// Whether a builder that holds `entries` takes one more: always where it
/// holds none; else if the encoded block stays within `limit` and the entry's
/// offset fits its field.
pub open spec fn block_accepts(entries: Seq<Entry>, limit: int, key: Seq<u8>, value: Seq<u8>) -> bool {
    entries.len() == 0 || (block_len(entries) + entry_cost(entries[0].0, key, value) <= limit
        && block_len(entries) - 2 * entries.len() - 2 <= FIELD_MAX)
}

/// Builds a block from entries added in key order.
pub struct BlockBuilder {
    /// Where each entry starts in `data`.
    offsets: Vec<u16>,
    /// The entries, laid end to end.
    data: Vec<u8>,
    /// The size that the encoded block should not exceed.
    block_size: usize,
    /// The first key added, empty before.
    first_key: Vec<u8>,
    /// The last key added, empty before.
    last_key: Vec<u8>,
}

impl View for BlockBuilder {
    type V = Seq<Entry>;

    /// The entries added so far, in order.
    closed spec fn view(&self) -> Seq<Entry> {
        block_entries(self.data@, self.offsets@)
    }
}

impl BlockBuilder {
    /// The entries form a block, the recorded first and last keys are those of
    /// the first and last entry, and the block is within its size unless it
    /// holds a single entry.
    pub closed spec fn wf(&self) -> bool {
        &&& block_wf(self.data@, self.offsets@)
        &&& self.offsets@.len() == 0 ==> self.first_key@.len() == 0 && self.last_key@.len() == 0
        &&& self.offsets@.len() > 0 ==> self.first_key@ == block_first_key(self.data@)
            && self.last_key@ == entry_key(
            self.data@,
            self.offsets@[self.offsets@.len() - 1] as int,
        )
        &&& self.offsets@.len() <= 1 || self.encoded_len() <= self.block_size
        &&& self.data@.len() + 2 * self.offsets@.len() + 2 == block_len(self@)
    }

    /// The encoded form of the block built so far.
    pub closed spec fn encoded(&self) -> Seq<u8> {
        super::block_bytes(self.data@, self.offsets@)
    }

    /// The size that the encoded block should not exceed.
    pub closed spec fn limit(&self) -> nat {
        self.block_size as nat
    }

    /// The size of the encoded form of the block built so far.
    pub open spec fn encoded_len(&self) -> int {
        block_len(self@)
    }

    /// Whether `add` takes the entry.
    pub open spec fn accepts(&self, key: Seq<u8>, value: Seq<u8>) -> bool {
        block_accepts(self@, self.limit() as int, key, value)
    }

    /// The encoded form of the block built so far decodes to the entries
    /// added, and has the size that the builder reckons with.
    pub proof fn lemma_encoded(&self)
        requires
            self.wf(),
        ensures
            super::valid_block_bytes(self.encoded()),
            super::decoded_entries(self.encoded()) == self@,
            self.encoded().len() == self.encoded_len(),
    {
        super::lemma_block_roundtrip(Block { data: self.data, offsets: self.offsets });
    }

    /// What a well-formed builder holds: strictly increasing, non-empty keys
    /// of at most 65535 bytes, in a block whose encoded form has the stated size.
    pub proof fn lemma_wf(&self)
        requires
            self.wf(),
        ensures
            sorted(self@),
            keys_bounded(self@),
            self@.len() <= FIELD_MAX,
            self@.len() > 1 ==> self.encoded_len() <= self.limit(),
            2 <= self.encoded_len() <= 5 * FIELD_MAX + 8,
    {
        lemma_block_entries_sorted(self.data@, self.offsets@);
        lemma_block_data_bounded(self.data@, self.offsets@);
    }

    /// A builder without entries for blocks of at most `block_size` bytes.
    pub fn new(block_size: usize) -> (r: BlockBuilder)
        ensures
            r.wf(),
            r@.len() == 0,
            r.limit() == block_size,
    {
        BlockBuilder {
            offsets: Vec::new(),
            data: Vec::new(),
            block_size,
            first_key: Vec::new(),
            last_key: Vec::new(),
        }
    }

    /// Adds an entry at the end. Returns false, and changes nothing, where the
    /// builder holds entries already and this one would take the encoded block
    /// over its size.
    #[verifier::rlimit(40)]
    pub fn add(&mut self, key: &[u8], value: &[u8]) -> (r: bool)
        requires
            old(self).wf(),
            1 <= key@.len() <= FIELD_MAX,
            value@.len() <= FIELD_MAX,
            old(self)@.len() > 0 ==> key_lt(old(self)@.last().0, key@),
        ensures
            final(self).wf(),
            final(self).limit() == old(self).limit(),
            r == old(self).accepts(key@, value@),
            r ==> final(self)@ == old(self)@.push((key@, value@)),
            r ==> final(self).encoded_len() <= final(self).limit() || final(self)@.len() == 1,
            !r ==> *final(self) == *old(self),
    {
        let key_len: usize = key.len();
        let value_len: usize = value.len();
        let common: usize = shared_prefix(key, self.first_key.as_slice());
        proof {
            self.lemma_fields();
            lemma_common_prefix_len(key@, self.first_key@);
        }
        let increase: usize = 8 + (key_len - common) + value_len;
        let n: usize = self.offsets.len();
        let data_len: usize = self.data.len();
        if n > 0 && (data_len + 2 * n + 2 + increase > self.block_size || data_len > FIELD_MAX) {
            return false;
        }
        proof {
            lemma_append_entry(self.data@, self.offsets@, key@, value@, common as int);
        }
        write_entry(&mut self.data, &mut self.offsets, key, value, common);
        if n == 0 {
            self.first_key = key_to_vec(key);
        }
        self.last_key = key_to_vec(key);
        proof {
            self.lemma_fields();
            assert(self@.drop_last() =~= old(self)@);
        }
        true
    }

    /// How the view relates to the fields.
    proof fn lemma_fields(&self)
        requires
            block_wf(self.data@, self.offsets@),
        ensures
            self@.len() == self.offsets@.len(),
            self.data@.len() <= 3 * FIELD_MAX + 6,
            self.offsets@.len() <= FIELD_MAX,
            self@.len() > 0 ==> self@[0].0 == block_first_key(self.data@) && self@.last().0
                == entry_key(self.data@, self.offsets@[self.offsets@.len() - 1] as int),
    {
        lemma_block_data_bounded(self.data@, self.offsets@);
        if self.offsets@.len() > 0 {
            assert(entry_ok(self.data@, self.offsets@[0] as int));
            assert(block_first_key(self.data@).subrange(0, 0) =~= Seq::<u8>::empty());
            assert(self@[0].0 =~= block_first_key(self.data@));
        }
    }

    /// Tells whether no entry has been added.
    pub fn is_empty(&self) -> (r: bool)
        requires
            self.wf(),
        ensures
            r == (self@.len() == 0),
    {
        self.data.is_empty()
    }

    /// The block of the entries added.
    pub fn build(self) -> (r: Block)
        requires
            self.wf(),
        ensures
            r.wf(),
            r@ == self@,
            r.encoded() == self.encoded(),
            r.encoded().len() == block_len(self@),
    {
        proof {
            super::lemma_offsets_bytes(self.offsets@);
        }
        Block { data: self.data, offsets: self.offsets }
    }

    /// The first key added; empty where none was.
    pub fn first_key(&self) -> (r: Vec<u8>)
        requires
            self.wf(),
        ensures
            r@ == if self@.len() > 0 {
                self@[0].0
            } else {
                Seq::<u8>::empty()
            },
    {
        proof {
            self.lemma_fields();
            if self.offsets@.len() == 0 {
                assert(self.first_key@ =~= Seq::<u8>::empty());
            }
        }
        key_to_vec(self.first_key.as_slice())
    }

    /// The last key added; empty where none was.
    pub fn last_key(&self) -> (r: Vec<u8>)
        requires
            self.wf(),
        ensures
            r@ == if self@.len() > 0 {
                self@.last().0
            } else {
                Seq::<u8>::empty()
            },
    {
        proof {
            self.lemma_fields();
            if self.offsets@.len() == 0 {
                assert(self.last_key@ =~= Seq::<u8>::empty());
            }
        }
        key_to_vec(self.last_key.as_slice())
    }
}

} // verus!
