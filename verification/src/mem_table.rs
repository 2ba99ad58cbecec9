//! The in-memory table that takes the writes.

use bytes::Bytes;
use crate::block::FIELD_MAX;
use crate::bound::{lower_pos, prefix_within, range, Bound};
use crate::buffer::buffer_from_slice;
use crate::entries::{
    keys_bounded, lemma_lookup_at_lower_bound, lemma_lower_bound_unique, lemma_upsert_at,
    lemma_upsert_sorted, lookup, lower_bound, sorted, upsert, values_bounded, Entry,
};
use crate::error::LsmError;
use crate::iterators::StorageIterator;
use crate::key::{key_equal, key_less, key_lt, key_to_vec, lemma_key_lt_transitive};
use crate::table::builder::{layout_extend, SsTableBuilder};
use vstd::prelude::*;

verus! {

/// The keys and values of owned pairs.
pub open spec fn pairs_view(v: Seq<(Vec<u8>, Vec<u8>)>) -> Seq<Entry> {
    Seq::new(v.len(), |i: int| (v[i].0@, v[i].1@))
}

/// Adding the next entry of a sorted run to what was built from the entries
/// before it keeps the keys in order.
proof fn lemma_flush_step(base: Seq<Entry>, s: Seq<Entry>, i: int)
    requires
        sorted(s),
        0 <= i < s.len(),
        base.len() > 0 ==> key_lt(base.last().0, s[0].0),
    ensures
        (base + s.subrange(0, i)).len() > 0 ==> key_lt(
            (base + s.subrange(0, i)).last().0,
            s[i].0,
        ),
        (base + s.subrange(0, i)).push(s[i]) == base + s.subrange(0, i + 1),
        s.subrange(0, i + 1).drop_last() == s.subrange(0, i),
        s.subrange(0, i + 1).last() == s[i],
{
    let cur = base + s.subrange(0, i);
    if i > 0 {
        assert(cur.last() == s[i - 1]);
        assert(key_lt(s[i - 1].0, s[i].0));
    } else {
        assert(cur =~= base);
    }
    assert(cur.push(s[i]) =~= base + s.subrange(0, i + 1));
    assert(s.subrange(0, i + 1).drop_last() =~= s.subrange(0, i));
}

/// The position of the first pair whose key is not before `key`.
fn lower_index(entries: &Vec<(Vec<u8>, Vec<u8>)>, key: &[u8]) -> (r: usize)
    requires
        sorted(pairs_view(entries@)),
    ensures
        r == lower_bound(pairs_view(entries@), key@),
        r <= entries@.len(),
{
    let ghost s = pairs_view(entries@);
    let n: usize = entries.len();
    let mut left: usize = 0;
    let mut right: usize = n;
    while left < right
        invariant
            s == pairs_view(entries@),
            sorted(s),
            n == entries@.len(),
            left <= right <= n,
            forall|j: int| 0 <= j < left ==> key_lt(#[trigger] s[j].0, key@),
            forall|j: int| right <= j < n ==> !key_lt(#[trigger] s[j].0, key@),
        decreases right - left,
    {
        let mid: usize = left + (right - left) / 2;
        assert(s[mid as int].0 == entries@[mid as int].0@);
        if key_less(entries[mid].0.as_slice(), key) {
            proof {
                assert forall|j: int| 0 <= j < mid + 1 implies key_lt(#[trigger] s[j].0, key@) by {
                    if j < mid {
                        lemma_key_lt_transitive(s[j].0, s[mid as int].0, key@);
                    }
                }
            }
            left = mid + 1;
        } else {
            proof {
                assert forall|j: int| mid <= j < n implies !key_lt(#[trigger] s[j].0, key@) by {
                    if j > mid && key_lt(s[j].0, key@) {
                        lemma_key_lt_transitive(s[mid as int].0, s[j].0, key@);
                    }
                }
            }
            right = mid;
        }
    }
    proof {
        lemma_lower_bound_unique(s, key@, left as int);
    }
    left
}

/// A sorted map from keys to values, held in memory.
#[derive(Clone)]
pub struct MemTable {
    /// The entries, by increasing key.
    entries: Vec<(Vec<u8>, Vec<u8>)>,
    id: usize,
    /// The bytes of all keys and values ever put, added up.
    approximate_size: usize,
}

impl View for MemTable {
    type V = Seq<Entry>;

    /// The entries of the table, by increasing key.
    closed spec fn view(&self) -> Seq<Entry> {
        pairs_view(self.entries@)
    }
}

impl MemTable {
    /// The keys are strictly increasing, and keys and values fit the length
    /// fields of a block.
    pub closed spec fn wf(&self) -> bool {
        &&& sorted(self@)
        &&& keys_bounded(self@)
        &&& values_bounded(self@)
    }

    /// The identifier of the table.
    pub closed spec fn id_spec(&self) -> usize {
        self.id
    }

    /// The bytes of all keys and values ever put, added up, as far as a
    /// `usize` counts.
    pub closed spec fn size_spec(&self) -> nat {
        self.approximate_size as nat
    }

    /// What a well-formed table holds.
    pub proof fn lemma_wf(&self)
        requires
            self.wf(),
        ensures
            sorted(self@),
            keys_bounded(self@),
            values_bounded(self@),
    {
    }

    /// A table without entries.
    pub fn create(id: usize) -> (r: MemTable)
        ensures
            r.wf(),
            r@ == Seq::<Entry>::empty(),
            r.id_spec() == id,
            r.size_spec() == 0,
    {
        let r = MemTable { entries: Vec::new(), id, approximate_size: 0 };
        assert(r@ =~= Seq::<Entry>::empty());
        r
    }

    /// The value stored under `key`, if any; a tombstone is given as it is.
    pub fn get(&self, key: &[u8]) -> (r: Option<Bytes>)
        requires
            self.wf(),
        ensures
            r is Some <==> lookup(self@, key@) is Some,
            r matches Some(b) ==> crate::buffer::buffer_bytes(b) == lookup(self@, key@)->0,
    {
        proof {
            lemma_lookup_at_lower_bound(self@, key@);
        }
        let i: usize = lower_index(&self.entries, key);
        if i < self.entries.len() && key_equal(self.entries[i].0.as_slice(), key) {
            Some(buffer_from_slice(self.entries[i].1.as_slice()))
        } else {
            None
        }
    }

    /// Stores `value` under `key`, in place of what was stored there. An
    /// empty key, or a key or value of more than 65535 bytes, is refused.
    pub fn put(&mut self, key: &[u8], value: &[u8]) -> (r: Result<(), LsmError>)
        requires
            old(self).wf(),
        ensures
            final(self).wf(),
            final(self).id_spec() == old(self).id_spec(),
            r is Ok <==> 1 <= key@.len() <= FIELD_MAX && value@.len() <= FIELD_MAX,
            r is Ok ==> final(self)@ == upsert(old(self)@, key@, value@),
            r is Ok ==> final(self).size_spec() == if old(self).size_spec() + key@.len()
                + value@.len() <= usize::MAX {
                old(self).size_spec() + key@.len() + value@.len()
            } else {
                usize::MAX as nat
            },
            r matches Err(e) ==> e == LsmError::InvariantViolated && *final(self) == *old(self),
    {
        if key.len() == 0 || key.len() > FIELD_MAX || value.len() > FIELD_MAX {
            return Err(LsmError::InvariantViolated);
        }
        let ghost s = self@;
        proof {
            lemma_upsert_at(s, key@, value@);
            lemma_upsert_sorted(s, key@, value@);
        }
        let i: usize = lower_index(&self.entries, key);
        let k = key_to_vec(key);
        let v = key_to_vec(value);
        if i < self.entries.len() && key_equal(self.entries[i].0.as_slice(), key) {
            self.entries.set(i, (k, v));
            assert(self@ =~= s.update(i as int, (key@, value@)));
        } else {
            self.entries.insert(i, (k, v));
            assert(self@ =~= s.insert(i as int, (key@, value@)));
        }
        let added: usize = key.len() + value.len();
        if usize::MAX - self.approximate_size < added {
            self.approximate_size = usize::MAX;
        } else {
            self.approximate_size = self.approximate_size + added;
        }
        proof {
            let u = self@;
            assert forall|j: int| 0 <= j < u.len() implies 1 <= (#[trigger] u[j]).0.len() <= 0xFFFF
                && u[j].1.len() <= 0xFFFF by {
                if j < i {
                    assert(u[j] == s[j]);
                } else if j > i {
                    assert(u[j] == s[j] || u[j] == s[j - 1]);
                }
            }
        }
        Ok(())
    }

    /// An iterator over the entries in the range from `lower` to `upper`.
    pub fn scan(&self, lower: &Bound, upper: &Bound) -> (r: MemTableIterator)
        requires
            self.wf(),
        ensures
            r.wf(),
            r.remaining() == range(self@, lower@, upper@),
    {
        let ghost s = self@;
        let n: usize = self.entries.len();
        let start: usize = match lower {
            Bound::Included(k) => lower_index(&self.entries, k.as_slice()),
            Bound::Excluded(k) => {
                let i = lower_index(&self.entries, k.as_slice());
                if i < n && key_equal(self.entries[i].0.as_slice(), k.as_slice()) {
                    i + 1
                } else {
                    i
                }
            },
            Bound::Unbounded => 0,
        };
        assert(start == lower_pos(s, lower@));
        let mut items: Vec<(Vec<u8>, Vec<u8>)> = Vec::new();
        let mut i: usize = start;
        proof {
            assert(pairs_view(items@) + prefix_within(s.skip(i as int), upper@) =~= prefix_within(
                s.skip(start as int),
                upper@,
            ));
        }
        while i < n && upper.admits(self.entries[i].0.as_slice())
            invariant
                s == pairs_view(self.entries@),
                n == self.entries@.len(),
                start <= i <= n,
                prefix_within(s.skip(start as int), upper@) == pairs_view(items@) + prefix_within(
                    s.skip(i as int),
                    upper@,
                ),
            decreases n - i,
        {
            let ghost before = pairs_view(items@);
            let k = key_to_vec(self.entries[i].0.as_slice());
            let v = key_to_vec(self.entries[i].1.as_slice());
            items.push((k, v));
            proof {
                let t = s.skip(i as int);
                assert(t[0] == s[i as int]);
                assert(t.skip(1) =~= s.skip(i + 1));
                assert(pairs_view(items@) =~= before.push(s[i as int]));
                assert(before + (seq![t[0]] + prefix_within(t.skip(1), upper@)) =~= before.push(
                    s[i as int],
                ) + prefix_within(s.skip(i + 1), upper@));
            }
            i = i + 1;
        }
        proof {
            let t = s.skip(i as int);
            if i < n {
                assert(t[0] == s[i as int]);
            }
            assert(prefix_within(t, upper@) =~= Seq::<Entry>::empty());
            assert(pairs_view(items@) + Seq::<Entry>::empty() =~= pairs_view(items@));
            assert(pairs_view(items@).skip(0) =~= pairs_view(items@));
        }
        MemTableIterator { items, pos: 0 }
    }

    /// Adds the entries, by increasing key, to a table builder.
    pub fn flush(&self, builder: &mut SsTableBuilder) -> (r: Result<(), LsmError>)
        requires
            self.wf(),
            old(builder).wf(),
            old(builder)@.len() > 0 && self@.len() > 0 ==> key_lt(
                old(builder)@.last().0,
                self@[0].0,
            ),
        ensures
            r is Ok,
            final(builder).wf(),
            final(builder).limit() == old(builder).limit(),
            final(builder)@ == old(builder)@ + self@,
            final(builder).layout() == layout_extend(
                old(builder).layout(),
                old(builder).limit(),
                self@,
            ),
    {
        let ghost s = self@;
        let n: usize = self.entries.len();
        let mut i: usize = 0;
        proof {
            assert(old(builder)@ + s.subrange(0, 0) =~= old(builder)@);
        }
        while i < n
            invariant
                s == pairs_view(self.entries@),
                self.wf(),
                n == self.entries@.len(),
                0 <= i <= n,
                builder.wf(),
                builder.limit() == old(builder).limit(),
                old(builder)@.len() > 0 && s.len() > 0 ==> key_lt(old(builder)@.last().0, s[0].0),
                builder@ == old(builder)@ + s.subrange(0, i as int),
                builder.layout() == layout_extend(
                    old(builder).layout(),
                    old(builder).limit(),
                    s.subrange(0, i as int),
                ),
            decreases n - i,
        {
            proof {
                assert(s[i as int] == (self.entries@[i as int].0@, self.entries@[i as int].1@));
                lemma_flush_step(old(builder)@, s, i as int);
            }
            builder.add(self.entries[i].0.as_slice(), self.entries[i].1.as_slice());
            i = i + 1;
        }
        proof {
            assert(s.subrange(0, n as int) =~= s);
        }
        Ok(())
    }

    /// The identifier of the table.
    pub fn id(&self) -> (r: usize)
        ensures
            r == self.id_spec(),
    {
        self.id
    }

    /// The bytes of all keys and values ever put, added up.
    pub fn approximate_size(&self) -> (r: usize)
        ensures
            r == self.size_spec(),
    {
        self.approximate_size
    }

    /// Tells whether the table has no entry.
    pub fn is_empty(&self) -> (r: bool)
        ensures
            r == (self@.len() == 0),
    {
        self.entries.len() == 0
    }
}

/// A position in a copy of the entries of a range of a memtable.
pub struct MemTableIterator {
    items: Vec<(Vec<u8>, Vec<u8>)>,
    pos: usize,
}

impl MemTableIterator {
    /// The position lies within the entries, or right past them.
    pub closed spec fn settled(&self) -> bool {
        self.pos <= self.items@.len()
    }

    /// The entries still to come.
    pub closed spec fn rest(&self) -> Seq<Entry> {
        pairs_view(self.items@).skip(self.pos as int)
    }
}

impl StorageIterator for MemTableIterator {
    open spec fn wf(&self) -> bool {
        self.settled()
    }

    open spec fn remaining(&self) -> Seq<Entry> {
        self.rest()
    }

    open spec fn can_fail() -> bool {
        false
    }

    fn key(&self) -> (r: &[u8]) {
        self.items[self.pos].0.as_slice()
    }

    fn value(&self) -> (r: &[u8]) {
        self.items[self.pos].1.as_slice()
    }

    fn is_valid(&self) -> (r: bool) {
        self.pos < self.items.len()
    }

    fn next(&mut self) -> (r: Result<(), LsmError>) {
        proof {
            if self.pos < self.items@.len() {
                assert(pairs_view(self.items@).skip(self.pos as int).skip(1) =~= pairs_view(
                    self.items@,
                ).skip(self.pos + 1));
            }
        }
        if self.pos < self.items.len() {
            self.pos = self.pos + 1;
        }
        Ok(())
    }

    /// An iterator that wraps no other counts as one.
    open spec fn active_iterators(&self) -> usize {
        1
    }

    fn num_active_iterators(&self) -> (r: usize) {
        1
    }
}

} // verus!
