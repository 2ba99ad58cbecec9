//! The storage engine: the layers of the store and the operations on them.
//!
//! A read looks through the layers from the newest to the oldest: the
//! memtable, the frozen memtables, the tables of level 0, then the deeper
//! levels. The first layer that holds the key decides; an empty value there
//! means that the key was deleted.

use bytes::Bytes;
use crate::block::FIELD_MAX;
use crate::bound::{from_lower, prefix_within, range, Bound, BoundView};
use crate::buffer::{buffer_as_slice, buffer_bytes, buffer_from_slice};
use crate::compact::{CompactionController, CompactionOptions};
use crate::compact::simple_leveled::SimpleLeveledCompactionController;
use crate::entries::{
    all_sorted, blocks_ordered, concat, first_hit, lemma_first_hit_cons, lemma_first_hit_push,
    lemma_live_no_tombstone, lemma_lookup_outside, lemma_lookup_skip, lemma_merge_n_point, live,
    lookup, lower_bound, merge2, merge_n, sorted, upsert, visible, Entry,
};
use crate::error::LsmError;
use crate::iterators::StorageIterator;
use crate::iterators::concat_iterator::{tables_view, tables_wf, SstConcatIterator};
use crate::iterators::merge_iterator::{all_wf, runs_of, MergeIterator};
use crate::iterators::two_merge_iterator::TwoMergeIterator;
use crate::key::{key_equal, key_le, key_less, key_less_eq, key_lt, lemma_key_lt_total};
use crate::lsm_iterator::{FusedIterator, LsmIterator};
use crate::mem_table::{MemTable, MemTableIterator};
use crate::table::{share, SsTable};
use crate::table::builder::{layout_encodable, layout_of, SsTableBuilder};
use crate::table::iterator::SsTableIterator;
use std::collections::HashMap;
use std::sync::Arc;
use vstd::prelude::*;
use vstd::std_specs::hash::*;

verus! {

broadcast use vstd::std_specs::hash::group_hash_axioms;

/// A buffer, if any, holds the bytes that `v` is, if any.
pub open spec fn holds(r: Option<Bytes>, v: Option<Seq<u8>>) -> bool {
    &&& r is Some <==> v is Some
    &&& r matches Some(b) ==> buffer_bytes(b) == v->0
}

/// The entries of each frozen memtable.
pub open spec fn imm_runs(imms: Seq<Arc<MemTable>>) -> Seq<Seq<Entry>> {
    Seq::new(imms.len(), |i: int| imms[i]@)
}

/// The entries of each of the tables with the given identifiers.
pub open spec fn id_runs(map: Map<usize, Arc<SsTable>>, ids: Seq<usize>) -> Seq<Seq<Entry>> {
    Seq::new(ids.len(), |i: int| map[ids[i]]@)
}

/// Every identifier names a well-formed table that carries it.
pub open spec fn ids_known(map: Map<usize, Arc<SsTable>>, ids: Seq<usize>) -> bool {
    forall|i: int|
        0 <= i < ids.len() ==> map.contains_key(#[trigger] ids[i]) && map[ids[i]].wf()
            && map[ids[i]].id_spec() == ids[i]
}

/// What the levels from `from` on hold for `k`: the first hit in the first
/// level that holds it.
pub open spec fn level_hit(
    map: Map<usize, Arc<SsTable>>,
    levels: Seq<(usize, Vec<usize>)>,
    from: int,
    k: Seq<u8>,
) -> Option<Seq<u8>>
    decreases levels.len() - from,
{
    if from < 0 || from >= levels.len() {
        None
    } else if first_hit(id_runs(map, levels[from].1@), k) is Some {
        first_hit(id_runs(map, levels[from].1@), k)
    } else {
        level_hit(map, levels, from + 1, k)
    }
}

/// Some level holds the identifier.
pub open spec fn in_levels(levels: Seq<(usize, Vec<usize>)>, id: usize) -> bool {
    exists|i: int| 0 <= i < levels.len() && (#[trigger] levels[i]).1@.contains(id)
}

/// The layers of the store at one moment.
#[derive(Clone)]
pub struct LsmStorageState {
    /// The memtable that takes the writes.
    pub memtable: MemTable,
    /// The frozen memtables, from the latest to the earliest.
    pub imm_memtables: Vec<Arc<MemTable>>,
    /// The tables of level 0, from the latest to the earliest.
    pub l0_sstables: Vec<usize>,
    /// The deeper levels, from level 1 on: the number of each level and
    /// its tables in key order.
    pub levels: Vec<(usize, Vec<usize>)>,
    /// The tables by their identifiers.
    pub sstables: HashMap<usize, Arc<SsTable>>,
}

impl LsmStorageState {
    /// The entries of the memtable and of each frozen memtable, newest first.
    pub open spec fn mem_runs(&self) -> Seq<Seq<Entry>> {
        seq![self.memtable@] + imm_runs(self.imm_memtables@)
    }

    /// The entries of each table of level 0, newest first.
    pub open spec fn l0_runs(&self) -> Seq<Seq<Entry>> {
        id_runs(self.sstables@, self.l0_sstables@)
    }

    /// What the first layer that holds `k` has for it, tombstone or not.
    pub open spec fn found(&self, k: Seq<u8>) -> Option<Seq<u8>> {
        if first_hit(self.mem_runs(), k) is Some {
            first_hit(self.mem_runs(), k)
        } else if first_hit(self.l0_runs(), k) is Some {
            first_hit(self.l0_runs(), k)
        } else {
            level_hit(self.sstables@, self.levels@, 0, k)
        }
    }

    /// What a read of `k` gives: the value in the first layer that holds
    /// `k`, unless that is a tombstone.
    pub open spec fn get_spec(&self, k: Seq<u8>) -> Option<Seq<u8>> {
        visible(self.found(k))
    }

    /// Level 0 or a deeper level holds the identifier.
    pub open spec fn referenced(&self, id: usize) -> bool {
        self.l0_sstables@.contains(id) || in_levels(self.levels@, id)
    }

    /// The memtables are well formed; every identifier in a level names a
    /// well-formed table, and every table is in a level; no table is in two
    /// levels; and the tables of each deeper level follow each other in key
    /// order.
    pub open spec fn wf(&self) -> bool {
        &&& self.memtable.wf()
        &&& forall|i: int|
            0 <= i < self.imm_memtables@.len() ==> (#[trigger] self.imm_memtables@[i]).wf()
        &&& ids_known(self.sstables@, self.l0_sstables@)
        &&& forall|i: int|
            0 <= i < self.levels@.len() ==> ids_known(
                self.sstables@,
                (#[trigger] self.levels@[i]).1@,
            ) && blocks_ordered(id_runs(self.sstables@, self.levels@[i].1@))
        &&& forall|id: usize| self.sstables@.contains_key(id) ==> #[trigger] self.referenced(id)
        &&& forall|id: usize, i: int|
            #![trigger self.levels@[i].1@.contains(id)]
            0 <= i < self.levels@.len() && self.l0_sstables@.contains(id)
                ==> !self.levels@[i].1@.contains(id)
        &&& forall|id: usize, i: int, j: int|
            #![trigger self.levels@[i].1@.contains(id), self.levels@[j].1@.contains(id)]
            0 <= i < j < self.levels@.len() && self.levels@[i].1@.contains(id)
                ==> !self.levels@[j].1@.contains(id)
    }
}

/// The numbers that an engine is run with.
#[derive(Debug, Clone, Copy)]
pub struct LsmStorageOptions {
    /// The size of a block in bytes.
    pub block_size: usize,
    /// The size of a table in bytes, and the size at which a memtable is frozen.
    pub target_sst_size: usize,
    /// The number of memtables in memory from which on the oldest is flushed.
    pub num_memtable_limit: usize,
    pub compaction_options: CompactionOptions,
    pub enable_wal: bool,
    pub serializable: bool,
}

/// The table with the given identifier.
fn table_of(map: &HashMap<usize, Arc<SsTable>>, id: usize) -> (r: &Arc<SsTable>)
    requires
        map@.contains_key(id),
    ensures
        *r == map@[id],
{
    match map.get(&id) {
        Some(t) => t,
        None => vstd::pervasive::unreached(),
    }
}

/// The buffer, unless it is empty.
fn unless_empty(b: Bytes) -> (r: Option<Bytes>)
    ensures
        holds(r, visible(Some(buffer_bytes(b)))),
{
    if buffer_as_slice(&b).len() == 0 {
        None
    } else {
        Some(b)
    }
}

/// What the first frozen memtable that holds `key` has for it.
fn get_from_imm(imms: &Vec<Arc<MemTable>>, key: &[u8]) -> (r: Option<Bytes>)
    requires
        forall|i: int| 0 <= i < imms@.len() ==> (#[trigger] imms@[i]).wf(),
    ensures
        holds(r, first_hit(imm_runs(imms@), key@)),
{
    let ghost runs = imm_runs(imms@);
    let n: usize = imms.len();
    let mut i: usize = 0;
    while i < n
        invariant
            0 <= i <= n,
            n == imms@.len(),
            runs == imm_runs(imms@),
            forall|j: int| 0 <= j < imms@.len() ==> (#[trigger] imms@[j]).wf(),
            first_hit(runs.take(i as int), key@) is None,
        decreases n - i,
    {
        assert(imms@[i as int].wf());
        proof {
            lemma_first_hit_push(runs.take(i as int), runs[i as int], key@);
            assert(runs.take(i + 1) =~= runs.take(i as int).push(runs[i as int]));
        }
        match imms[i].get(key) {
            Some(b) => {
                proof {
                    lemma_first_hit_rest(runs, i + 1, key@);
                }
                return Some(b);
            },
            None => {},
        }
        i = i + 1;
    }
    assert(runs.take(n as int) =~= runs);
    None
}

/// A hit among the first runs is the first hit among all of them.
proof fn lemma_first_hit_rest(runs: Seq<Seq<Entry>>, i: int, k: Seq<u8>)
    requires
        0 <= i <= runs.len(),
        first_hit(runs.take(i), k) is Some,
    ensures
        first_hit(runs, k) == first_hit(runs.take(i), k),
    decreases runs.len() - i,
{
    if i < runs.len() {
        lemma_first_hit_push(runs.take(i), runs[i], k);
        assert(runs.take(i + 1) =~= runs.take(i).push(runs[i]));
        lemma_first_hit_rest(runs, i + 1, k);
    } else {
        assert(runs.take(i) =~= runs);
    }
}

/// What a table holds for `key`.
fn get_from_table(table: &Arc<SsTable>, key: &[u8]) -> (r: Result<Option<Bytes>, LsmError>)
    requires
        table.wf(),
    ensures
        r matches Ok(v) && holds(v, lookup(table@, key@)),
{
    proof {
        table.lemma_wf();
        lemma_lookup_skip(table@, key@);
    }
    if !(key_less_eq(table.first_key(), key) && key_less_eq(key, table.last_key())) {
        proof {
            lemma_key_lt_total(table@[0].0, key@);
            lemma_key_lt_total(key@, table@.last().0);
            lemma_lookup_outside(table@, key@);
        }
        return Ok(None);
    }
    if !table.may_hold(key) {
        return Ok(None);
    }
    let iter = match SsTableIterator::create_and_seek_to_key(share(table), key) {
        Ok(it) => it,
        Err(e) => {
            return Err(e);
        },
    };
    if iter.is_valid() && key_equal(iter.key(), key) {
        Ok(Some(buffer_from_slice(iter.value())))
    } else {
        Ok(None)
    }
}

/// What a level holds for `key`. The tables of the level follow each other
/// in key order, so one table at most can hold the key: the last one that
/// starts at or before it, which is found by binary search.
fn get_from_sorted_run(map: &HashMap<usize, Arc<SsTable>>, ids: &Vec<usize>, key: &[u8]) -> (r:
    Result<Option<Bytes>, LsmError>)
    requires
        ids_known(map@, ids@),
        blocks_ordered(id_runs(map@, ids@)),
    ensures
        r matches Ok(v) && holds(v, first_hit(id_runs(map@, ids@), key@)),
{
    let ghost runs = id_runs(map@, ids@);
    let n: usize = ids.len();
    let mut lo: usize = 0;
    let mut hi: usize = n;
    while lo < hi
        invariant
            ids_known(map@, ids@),
            runs == id_runs(map@, ids@),
            blocks_ordered(runs),
            n == ids@.len(),
            lo <= hi <= n,
            forall|j: int| 0 <= j < lo ==> key_le((#[trigger] runs[j])[0].0, key@),
            forall|j: int| hi <= j < n ==> key_lt(key@, (#[trigger] runs[j])[0].0),
        decreases hi - lo,
    {
        let mid: usize = lo + (hi - lo) / 2;
        assert(map@.contains_key(ids@[mid as int]));
        let table = table_of(map, ids[mid]);
        proof {
            table.lemma_wf();
            assert(runs[mid as int] == table@);
        }
        if key_less_eq(table.first_key(), key) {
            proof {
                assert forall|j: int| 0 <= j < mid + 1 implies key_le(
                    (#[trigger] runs[j])[0].0,
                    key@,
                ) by {
                    if j < mid {
                        crate::entries::lemma_blocks_chain(runs, j, mid as int);
                        crate::key::lemma_key_lt_le(runs[j][0].0, runs[mid as int][0].0, key@);
                    }
                }
            }
            lo = mid + 1;
        } else {
            proof {
                lemma_key_lt_total(runs[mid as int][0].0, key@);
                assert forall|j: int| mid <= j < n implies key_lt(
                    key@,
                    (#[trigger] runs[j])[0].0,
                ) by {
                    if j > mid {
                        crate::entries::lemma_blocks_chain(runs, mid as int, j);
                        crate::key::lemma_key_lt_transitive(
                            key@,
                            runs[mid as int][0].0,
                            runs[j][0].0,
                        );
                    }
                }
            }
            hi = mid;
        }
    }
    proof {
        assert forall|j: int| 0 <= j < n && j != lo - 1 implies lookup(#[trigger] runs[j], key@)
            is None by {
            assert(runs[j].len() > 0 && sorted(runs[j]));
            if j < lo - 1 {
                crate::entries::lemma_blocks_chain(runs, j, lo - 1);
                crate::key::lemma_key_lt_le(runs[j].last().0, runs[lo - 1][0].0, key@);
            }
            lemma_lookup_outside(runs[j], key@);
        }
        crate::entries::lemma_first_hit_only(runs, lo - 1, key@);
    }
    if lo == 0 {
        return Ok(None);
    }
    assert(map@.contains_key(ids@[lo - 1]));
    get_from_table(table_of(map, ids[lo - 1]), key)
}

/// Tells whether `key` lies between the first and the last key of the table.
fn key_within_sst(table: &Arc<SsTable>, key: &[u8]) -> (r: bool)
    requires
        table.wf(),
    ensures
        r == (key_le(table@[0].0, key@) && key_le(key@, table@.last().0)),
        !r ==> lookup(table@, key@) is None,
{
    proof {
        table.lemma_wf();
        lemma_key_lt_total(table@[0].0, key@);
        lemma_key_lt_total(key@, table@.last().0);
        if !(key_le(table@[0].0, key@) && key_le(key@, table@.last().0)) {
            lemma_lookup_outside(table@, key@);
        }
    }
    key_less_eq(table.first_key(), key) && key_less_eq(key, table.last_key())
}

/// What the first table of level 0 that holds `key` has for it: the tables
/// whose keys reach around `key` are merged from `key` on, and the merge
/// starts with the entry wanted if there is one.
fn get_from_l0(map: &HashMap<usize, Arc<SsTable>>, ids: &Vec<usize>, key: &[u8]) -> (r: Result<
    Option<Bytes>,
    LsmError,
>)
    requires
        ids_known(map@, ids@),
    ensures
        r matches Ok(v) && holds(v, first_hit(id_runs(map@, ids@), key@)),
{
    let ghost runs = id_runs(map@, ids@);
    let n: usize = ids.len();
    let mut iters: Vec<SsTableIterator> = Vec::new();
    let mut i: usize = 0;
    proof {
        assert(runs_of(iters@) =~= Seq::<Seq<Entry>>::empty());
        assert(runs.take(0) =~= Seq::<Seq<Entry>>::empty());
    }
    while i < n
        invariant
            0 <= i <= n,
            n == ids@.len(),
            runs == id_runs(map@, ids@),
            ids_known(map@, ids@),
            all_wf(iters@),
            all_sorted(runs_of(iters@)),
            forall|j: int|
                0 <= j < iters@.len() && (#[trigger] runs_of(iters@)[j]).len() > 0 ==> key_le(
                    key@,
                    runs_of(iters@)[j][0].0,
                ),
            first_hit(runs_of(iters@), key@) == first_hit(runs.take(i as int), key@),
        decreases n - i,
    {
        assert(map@.contains_key(ids@[i as int]));
        let table = table_of(map, ids[i]);
        proof {
            table.lemma_wf();
            lemma_lookup_skip(table@, key@);
            lemma_first_hit_push(runs.take(i as int), runs[i as int], key@);
            assert(runs.take(i + 1) =~= runs.take(i as int).push(runs[i as int]));
        }
        if key_within_sst(table, key) && table.may_hold(key) {
            let iter = match SsTableIterator::create_and_seek_to_key(share(table), key) {
                Ok(it) => it,
                Err(e) => {
                    return Err(e);
                },
            };
            let ghost before = iters@;
            iters.push(iter);
            proof {
                let r = iter.remaining();
                assert(runs_of(iters@) =~= runs_of(before).push(r));
                lemma_first_hit_push(runs_of(before), r, key@);
                assert forall|j: int| 0 <= j < iters@.len() implies sorted(
                    #[trigger] runs_of(iters@)[j],
                ) by {
                    if j < before.len() {
                        assert(runs_of(iters@)[j] == runs_of(before)[j]);
                    }
                }
                assert forall|j: int|
                    0 <= j < iters@.len() && (#[trigger] runs_of(iters@)[j]).len()
                        > 0 implies key_le(key@, runs_of(iters@)[j][0].0) by {
                    if j < before.len() {
                        assert(runs_of(iters@)[j] == runs_of(before)[j]);
                    }
                }
            }
        }
        i = i + 1;
    }
    proof {
        assert(runs.take(n as int) =~= runs);
        lemma_merge_n_point(runs_of(iters@), key@);
    }
    let merged = MergeIterator::create(iters);
    if merged.is_valid() && key_equal(merged.key(), key) {
        Ok(Some(buffer_from_slice(merged.value())))
    } else {
        Ok(None)
    }
}

/// What the first of the deeper levels that holds `key` has for it.
fn get_from_levels(
    map: &HashMap<usize, Arc<SsTable>>,
    levels: &Vec<(usize, Vec<usize>)>,
    key: &[u8],
) -> (r: Result<Option<Bytes>, LsmError>)
    requires
        forall|i: int|
            0 <= i < levels@.len() ==> ids_known(map@, (#[trigger] levels@[i]).1@)
                && blocks_ordered(id_runs(map@, levels@[i].1@)),
    ensures
        r matches Ok(v) && holds(v, level_hit(map@, levels@, 0, key@)),
{
    let n: usize = levels.len();
    let mut i: usize = 0;
    while i < n
        invariant
            0 <= i <= n,
            n == levels@.len(),
            forall|j: int|
                0 <= j < levels@.len() ==> ids_known(map@, (#[trigger] levels@[j]).1@)
                    && blocks_ordered(id_runs(map@, levels@[j].1@)),
            level_hit(map@, levels@, 0, key@) == level_hit(map@, levels@, i as int, key@),
        decreases n - i,
    {
        assert(ids_known(map@, levels@[i as int].1@));
        match get_from_sorted_run(map, &levels[i].1, key) {
            Ok(Some(b)) => {
                return Ok(Some(b));
            },
            Ok(None) => {},
            Err(e) => {
                return Err(e);
            },
        }
        i = i + 1;
    }
    Ok(None)
}

/// Tables with identifiers other than `id` are what they were after a table
/// is stored under `id`.
proof fn lemma_runs_after_insert(
    map: Map<usize, Arc<SsTable>>,
    id: usize,
    t: Arc<SsTable>,
    ids: Seq<usize>,
)
    requires
        !ids.contains(id),
    ensures
        id_runs(map.insert(id, t), ids) == id_runs(map, ids),
        ids_known(map, ids) ==> ids_known(map.insert(id, t), ids),
{
    assert forall|i: int| 0 <= i < ids.len() implies ids[i] != id by {
        assert(ids.contains(ids[i]));
    }
    assert(id_runs(map.insert(id, t), ids) =~= id_runs(map, ids));
}

/// What the levels hold for a key depends on the entries of their tables alone.
pub proof fn lemma_level_hit_same(
    map1: Map<usize, Arc<SsTable>>,
    map2: Map<usize, Arc<SsTable>>,
    levels: Seq<(usize, Vec<usize>)>,
    from: int,
    k: Seq<u8>,
)
    requires
        0 <= from,
        forall|i: int|
            from <= i < levels.len() ==> id_runs(map1, (#[trigger] levels[i]).1@) == id_runs(
                map2,
                levels[i].1@,
            ),
    ensures
        level_hit(map1, levels, from, k) == level_hit(map2, levels, from, k),
    decreases levels.len() - from,
{
    if from < levels.len() {
        assert(id_runs(map1, levels[from].1@) == id_runs(map2, levels[from].1@));
        lemma_level_hit_same(map1, map2, levels, from + 1, k);
    }
}

impl LsmStorageOptions {
    /// The options of a small store that is never compacted by itself.
    pub fn default_for_week1_test() -> (r: Self)
        ensures
            r.block_size == 4096,
            r.target_sst_size == 2097152,
            r.num_memtable_limit == 50,
            r.compaction_options is NoCompaction,
            !r.enable_wal,
            !r.serializable,
    {
        Self {
            block_size: 4096,
            target_sst_size: 2097152,
            compaction_options: CompactionOptions::NoCompaction,
            enable_wal: false,
            num_memtable_limit: 50,
            serializable: false,
        }
    }

    /// The options of a small store that flushes early.
    pub fn default_for_week1_day6_test() -> (r: Self)
        ensures
            r.block_size == 4096,
            r.target_sst_size == 2097152,
            r.num_memtable_limit == 2,
            r.compaction_options is NoCompaction,
            !r.enable_wal,
            !r.serializable,
    {
        Self {
            block_size: 4096,
            target_sst_size: 2097152,
            compaction_options: CompactionOptions::NoCompaction,
            enable_wal: false,
            num_memtable_limit: 2,
            serializable: false,
        }
    }

    /// The options of a small store with the given compaction.
    pub fn default_for_week2_test(compaction_options: CompactionOptions) -> (r: Self)
        ensures
            r.block_size == 4096,
            r.target_sst_size == 1048576,
            r.num_memtable_limit == 2,
            r.compaction_options == compaction_options,
            !r.enable_wal,
            !r.serializable,
    {
        Self {
            block_size: 4096,
            target_sst_size: 1048576,
            compaction_options,
            enable_wal: false,
            num_memtable_limit: 2,
            serializable: false,
        }
    }

    /// The number of levels below level 0 that a store with these options has.
    pub open spec fn level_count(&self) -> int {
        match self.compaction_options {
            CompactionOptions::Simple(o) => o.max_levels as int,
            CompactionOptions::NoCompaction => 1,
        }
    }
}

impl LsmStorageState {
    /// The state of a new store: an empty memtable with identifier 0, and
    /// as many empty levels as the options ask for.
    pub fn create(options: &LsmStorageOptions) -> (r: Self)
        ensures
            r.wf(),
            r.memtable@.len() == 0,
            r.memtable.id_spec() == 0,
            r.memtable.size_spec() == 0,
            r.imm_memtables@.len() == 0,
            r.l0_sstables@.len() == 0,
            r.sstables@ == Map::<usize, Arc<SsTable>>::empty(),
            r.levels@.len() == options.level_count(),
            forall|i: int|
                0 <= i < r.levels@.len() ==> (#[trigger] r.levels@[i]).0 == i + 1
                    && r.levels@[i].1@.len() == 0,
    {
        let count: usize = match options.compaction_options {
            CompactionOptions::Simple(o) => o.max_levels,
            CompactionOptions::NoCompaction => 1,
        };
        let mut levels: Vec<(usize, Vec<usize>)> = Vec::new();
        let mut level: usize = 0;
        while level < count
            invariant
                0 <= level <= count,
                levels@.len() == level,
                forall|i: int|
                    0 <= i < levels@.len() ==> (#[trigger] levels@[i]).0 == i + 1
                        && levels@[i].1@.len() == 0,
            decreases count - level,
        {
            level = level + 1;
            levels.push((level, Vec::new()));
        }
        let r = Self {
            memtable: MemTable::create(0),
            imm_memtables: Vec::new(),
            l0_sstables: Vec::new(),
            levels,
            sstables: HashMap::new(),
        };
        proof {
            assert forall|i: int| 0 <= i < r.levels@.len() implies ids_known(
                r.sstables@,
                (#[trigger] r.levels@[i]).1@,
            ) && blocks_ordered(id_runs(r.sstables@, r.levels@[i].1@)) by {}
        }
        r
    }
}

/// The storage engine: the layers of the store, and what steers them.
#[derive(Clone)]
pub struct LsmStorageInner {
    /// The layers of the store.
    pub state: LsmStorageState,
    /// The identifier that the next memtable or table gets.
    pub next_sst_id: usize,
    pub options: LsmStorageOptions,
    pub compaction_controller: CompactionController,
}

/// A key is non-empty, and key and value fit the length fields of a block.
pub open spec fn valid_entry(key: Seq<u8>, value: Seq<u8>) -> bool {
    1 <= key.len() <= FIELD_MAX && value.len() <= FIELD_MAX
}

impl LsmStorageInner {
    /// The identifier that the next memtable or table gets.
    pub open spec fn next_id(&self) -> usize {
        self.next_sst_id
    }

    /// No identifier is left for another memtable or table.
    pub open spec fn exhausted(&self) -> bool {
        self.next_id() == usize::MAX
    }

    /// The state is well formed and has a level below level 0; every
    /// identifier in use is below the next one; and the memtables carry
    /// identifiers that decrease from the newest on and that no table has.
    pub open spec fn wf(&self) -> bool {
        let st = self.state;
        &&& st.wf()
        &&& st.levels@.len() >= 1
        &&& st.memtable.id_spec() < self.next_sst_id
        &&& !st.referenced(st.memtable.id_spec())
        &&& forall|i: int|
            0 <= i < st.imm_memtables@.len() ==> (#[trigger] st.imm_memtables@[i]).id_spec()
                < st.memtable.id_spec() && !st.referenced(st.imm_memtables@[i].id_spec())
        &&& forall|i: int, j: int|
            0 <= i < j < st.imm_memtables@.len() ==> (#[trigger] st.imm_memtables@[j]).id_spec() < (
            #[trigger] st.imm_memtables@[i]).id_spec()
        &&& forall|id: usize| #[trigger] st.referenced(id) ==> id < self.next_sst_id
    }

    /// A well-formed engine has a well-formed state with a level below level 0.
    pub proof fn lemma_wf(&self)
        requires
            self.wf(),
        ensures
            self.state.wf(),
            self.state.levels@.len() >= 1,
    {
    }

    /// A new engine with these options: an empty memtable with identifier 0,
    /// no frozen memtable, no table, the levels that the options ask for,
    /// numbered from 1 on and empty, and the strategy that the options name.
    /// Options that ask for no level below level 0 are refused: full
    /// compaction writes to level 1.
    pub fn open(options: LsmStorageOptions) -> (r: Result<Self, LsmError>)
        ensures
            r is Ok <==> options.level_count() >= 1,
            r matches Ok(e) ==> {
                &&& e.wf()
                &&& e.options == options
                &&& e.next_id() == 1
                &&& e.compaction_controller.steered_by(options.compaction_options)
                &&& e.state.memtable@.len() == 0
                &&& e.state.memtable.id_spec() == 0
                &&& e.state.memtable.size_spec() == 0
                &&& e.state.imm_memtables@.len() == 0
                &&& e.state.l0_sstables@.len() == 0
                &&& e.state.sstables@ == Map::<usize, Arc<SsTable>>::empty()
                &&& e.state.levels@.len() == options.level_count()
                &&& forall|i: int|
                    0 <= i < e.state.levels@.len() ==> (#[trigger] e.state.levels@[i]).0 == i + 1
                        && e.state.levels@[i].1@.len() == 0
                &&& forall|k: Seq<u8>| e.state.get_spec(k) is None
            },
            r matches Err(e) ==> e == LsmError::InvariantViolated,
    {
        let state = LsmStorageState::create(&options);
        if state.levels.len() == 0 {
            return Err(LsmError::InvariantViolated);
        }
        let compaction_controller = match options.compaction_options {
            CompactionOptions::Simple(o) => CompactionController::Simple(
                SimpleLeveledCompactionController::new(o),
            ),
            CompactionOptions::NoCompaction => CompactionController::NoCompaction,
        };
        let storage = Self { state, next_sst_id: 1, options, compaction_controller };
        proof {
            let st = storage.state;
            assert forall|id: usize| !(#[trigger] st.referenced(id)) by {
                if in_levels(st.levels@, id) {
                    let i = choose|i: int|
                        0 <= i < st.levels@.len() && (#[trigger] st.levels@[i]).1@.contains(id);
                    assert(st.levels@[i].1@.len() == 0);
                }
            }
            assert forall|k: Seq<u8>| st.get_spec(k) is None by {
                lemma_empty_state(st, k);
            }
        }
        Ok(storage)
    }

    /// The value stored under `key`, unless the key was never put or was deleted.
    pub fn get(&self, key: &[u8]) -> (r: Result<Option<Bytes>, LsmError>)
        requires
            self.wf(),
        ensures
            r matches Ok(v) && holds(v, self.state.get_spec(key@)),
    {
        proof {
            lemma_first_hit_cons(
                self.state.memtable@,
                imm_runs(self.state.imm_memtables@),
                key@,
            );
        }
        if let Some(b) = self.state.memtable.get(key) {
            return Ok(unless_empty(b));
        }
        if let Some(b) = get_from_imm(&self.state.imm_memtables, key) {
            return Ok(unless_empty(b));
        }
        match get_from_l0(&self.state.sstables, &self.state.l0_sstables, key) {
            Ok(Some(b)) => {
                return Ok(unless_empty(b));
            },
            Ok(None) => {},
            Err(e) => {
                return Err(e);
            },
        }
        match get_from_levels(&self.state.sstables, &self.state.levels, key) {
            Ok(Some(b)) => Ok(unless_empty(b)),
            Ok(None) => Ok(None),
            Err(e) => Err(e),
        }
    }
}

/// A state without entries holds nothing for any key.
proof fn lemma_empty_state(st: LsmStorageState, k: Seq<u8>)
    requires
        st.memtable@.len() == 0,
        st.imm_memtables@.len() == 0,
        st.l0_sstables@.len() == 0,
        forall|i: int| 0 <= i < st.levels@.len() ==> (#[trigger] st.levels@[i]).1@.len() == 0,
    ensures
        st.get_spec(k) is None,
{
    lemma_first_hit_cons(st.memtable@, imm_runs(st.imm_memtables@), k);
    assert(imm_runs(st.imm_memtables@) =~= Seq::<Seq<Entry>>::empty());
    assert(st.l0_runs() =~= Seq::<Seq<Entry>>::empty());
    lemma_level_hit_empty(st.sstables@, st.levels@, 0, k);
}

/// Levels without tables hold nothing for any key.
proof fn lemma_level_hit_empty(
    map: Map<usize, Arc<SsTable>>,
    levels: Seq<(usize, Vec<usize>)>,
    from: int,
    k: Seq<u8>,
)
    requires
        0 <= from,
        forall|i: int| 0 <= i < levels.len() ==> (#[trigger] levels[i]).1@.len() == 0,
    ensures
        level_hit(map, levels, from, k) is None,
    decreases levels.len() - from,
{
    if from < levels.len() {
        assert(levels[from].1@.len() == 0);
        assert(id_runs(map, levels[from].1@) =~= Seq::<Seq<Entry>>::empty());
        lemma_level_hit_empty(map, levels, from + 1, k);
    }
}

/// The first hit in runs without their last is the first hit in the runs,
/// unless only the last run holds the key.
proof fn lemma_first_hit_drop_last(runs: Seq<Seq<Entry>>, k: Seq<u8>)
    requires
        runs.len() > 0,
    ensures
        first_hit(runs, k) == if first_hit(runs.drop_last(), k) is Some {
            first_hit(runs.drop_last(), k)
        } else {
            lookup(runs.last(), k)
        },
{
    lemma_first_hit_push(runs.drop_last(), runs.last(), k);
    assert(runs.drop_last().push(runs.last()) =~= runs);
}

impl LsmStorageInner {
    /// Whether the memtable is frozen after `value` is put under `key`:
    /// whether its size has then reached the size of a table.
    pub open spec fn freezes_after(&self, key: Seq<u8>, value: Seq<u8>) -> bool {
        self.state.memtable.size_spec() + key.len() + value.len() >= self.options.target_sst_size
    }

    /// What a put of `value` under `key` does: `after` is what it leaves
    /// of this engine. The memtable holds the value under the key and has
    /// grown by the bytes of both; where it has then reached the size of a
    /// table it is frozen, and an empty memtable with the next identifier
    /// takes its place. The tables stay as they are. A read gives the value
    /// for the key, or nothing if the value is empty, and for every other key
    /// what it gave before.
    pub open spec fn put_done(self, after: Self, key: Seq<u8>, value: Seq<u8>) -> bool {
        let st = self.state;
        let filled = upsert(st.memtable@, key, value);
        &&& after.state.l0_sstables == st.l0_sstables
        &&& after.state.levels == st.levels
        &&& after.state.sstables == st.sstables
        &&& after.options == self.options
        &&& after.compaction_controller == self.compaction_controller
        &&& if self.freezes_after(key, value) {
            &&& after.next_id() == self.next_id() + 1
            &&& after.state.memtable@.len() == 0
            &&& after.state.memtable.size_spec() == 0
            &&& after.state.memtable.id_spec() == self.next_id()
            &&& after.state.imm_memtables@.len() == st.imm_memtables@.len() + 1
            &&& after.state.imm_memtables@[0]@ == filled
            &&& after.state.imm_memtables@[0].id_spec() == st.memtable.id_spec()
            &&& after.state.imm_memtables@.skip(1) == st.imm_memtables@
            &&& after.state.mem_runs() == seq![Seq::<Entry>::empty()] + (seq![filled] + imm_runs(
                st.imm_memtables@,
            ))
        } else {
            &&& after.next_id() == self.next_id()
            &&& after.state.memtable@ == filled
            &&& after.state.memtable.size_spec() == st.memtable.size_spec() + key.len()
                + value.len()
            &&& after.state.memtable.id_spec() == st.memtable.id_spec()
            &&& after.state.imm_memtables == st.imm_memtables
            &&& after.state.mem_runs() == seq![filled] + imm_runs(st.imm_memtables@)
        }
        &&& forall|k: Seq<u8>|
            after.state.get_spec(k) == if k == key {
                visible(Some(value))
            } else {
                st.get_spec(k)
            }
    }

    /// Freezes the memtable: it becomes the newest frozen memtable, and an
    /// empty memtable with the next identifier takes its place. Every key
    /// reads as before, whether the memtable was frozen or not. It is frozen
    /// unless no identifier is left, and then nothing changes.
    #[verifier::rlimit(40)]
    pub fn force_freeze_memtable(&mut self) -> (r: Result<(), LsmError>)
        requires
            old(self).wf(),
        ensures
            final(self).wf(),
            forall|k: Seq<u8>| final(self).state.get_spec(k) == old(self).state.get_spec(k),
            r is Ok <==> !old(self).exhausted(),
            r is Ok ==> {
                &&& final(self).state.memtable@.len() == 0
                &&& final(self).state.memtable.size_spec() == 0
                &&& final(self).state.memtable.id_spec() == old(self).next_id()
                &&& final(self).compaction_controller == old(self).compaction_controller
                &&& final(self).next_id() == old(self).next_id() + 1
                &&& final(self).state.imm_memtables@.len() == old(self).state.imm_memtables@.len()
                    + 1
                &&& *final(self).state.imm_memtables@[0] == old(self).state.memtable
                &&& final(self).state.imm_memtables@.skip(1) == old(self).state.imm_memtables@
                &&& final(self).state.mem_runs() == seq![Seq::<Entry>::empty()] + old(
                    self,
                ).state.mem_runs()
                &&& final(self).state.l0_sstables == old(self).state.l0_sstables
                &&& final(self).state.levels == old(self).state.levels
                &&& final(self).state.sstables == old(self).state.sstables
                &&& final(self).options == old(self).options
                &&& forall|k: Seq<u8>| final(self).state.get_spec(k) == old(self).state.get_spec(k)
            },
            r matches Err(e) ==> e == LsmError::InvariantViolated && *final(self) == *old(self),
    {
        if self.next_sst_id == usize::MAX {
            return Err(LsmError::InvariantViolated);
        }
        let id: usize = self.next_sst_id;
        self.next_sst_id = id + 1;
        let mut memtable = MemTable::create(id);
        std::mem::swap(&mut memtable, &mut self.state.memtable);
        self.state.imm_memtables.insert(0, Arc::new(memtable));
        proof {
            let st = self.state;
            let ost = old(self).state;
            assert(st.memtable@ =~= Seq::<Entry>::empty());
            assert(st.imm_memtables@.skip(1) =~= ost.imm_memtables@);
            assert(imm_runs(st.imm_memtables@) =~= seq![ost.memtable@] + imm_runs(
                ost.imm_memtables@,
            ));
            assert(st.mem_runs() =~= seq![Seq::<Entry>::empty()] + ost.mem_runs());
            assert forall|x: usize| st.referenced(x) == ost.referenced(x) by {}
            assert forall|i: int| 0 <= i < st.imm_memtables@.len() implies (
            #[trigger] st.imm_memtables@[i]).wf() && st.imm_memtables@[i].id_spec()
                < st.memtable.id_spec() && !st.referenced(st.imm_memtables@[i].id_spec()) by {
                if i > 0 {
                    assert(st.imm_memtables@[i] == ost.imm_memtables@[i - 1]);
                }
            }
            assert forall|i: int, j: int| 0 <= i < j < st.imm_memtables@.len() implies (
            #[trigger] st.imm_memtables@[j]).id_spec() < (#[trigger] st.imm_memtables@[i]).id_spec() by {
                assert(st.imm_memtables@[j] == ost.imm_memtables@[j - 1]);
                if i > 0 {
                    assert(st.imm_memtables@[i] == ost.imm_memtables@[i - 1]);
                }
            }
            assert forall|k: Seq<u8>| st.get_spec(k) == ost.get_spec(k) by {
                lemma_first_hit_cons(Seq::<Entry>::empty(), ost.mem_runs(), k);
            }
        }
        Ok(())
    }

    /// Stores `value` under `key`. When the memtable has then reached the
    /// size of a table, it is frozen. An empty key, a key or value of more
    /// than 65535 bytes, and a put into a store without identifiers left are
    /// refused, and nothing changes.
    #[verifier::rlimit(40)]
    pub fn put(&mut self, key: &[u8], value: &[u8]) -> (r: Result<(), LsmError>)
        requires
            old(self).wf(),
        ensures
            final(self).wf(),
            r is Ok <==> valid_entry(key@, value@) && !old(self).exhausted(),
            r is Ok ==> old(self).put_done(*final(self), key@, value@),
            r matches Err(e) ==> e == LsmError::InvariantViolated && *final(self) == *old(self),
    {
        if self.next_sst_id == usize::MAX {
            return Err(LsmError::InvariantViolated);
        }
        match self.state.memtable.put(key, value) {
            Ok(()) => {},
            Err(e) => {
                return Err(e);
            },
        }
        proof {
            let st = self.state;
            let ost = old(self).state;
            assert forall|x: usize| st.referenced(x) == ost.referenced(x) by {}
            assert forall|k: Seq<u8>|
                st.get_spec(k) == if k == key@ {
                    visible(Some(value@))
                } else {
                    ost.get_spec(k)
                } by {
                lemma_first_hit_cons(st.memtable@, imm_runs(st.imm_memtables@), k);
                lemma_first_hit_cons(ost.memtable@, imm_runs(ost.imm_memtables@), k);
                crate::entries::lemma_upsert_lookup(ost.memtable@, key@, value@, k);
            }
        }
        if self.state.memtable.approximate_size() >= self.options.target_sst_size {
            match self.force_freeze_memtable() {
                Ok(()) => {},
                Err(e) => {
                    return Err(e);
                },
            }
        }
        Ok(())
    }

    /// Deletes `key`: stores the empty value under it, as a put does. A
    /// read gives nothing for the key afterwards.
    pub fn delete(&mut self, key: &[u8]) -> (r: Result<(), LsmError>)
        requires
            old(self).wf(),
        ensures
            final(self).wf(),
            r is Ok <==> 1 <= key@.len() <= FIELD_MAX && !old(self).exhausted(),
            r is Ok ==> old(self).put_done(*final(self), key@, Seq::empty()),
            r is Ok ==> final(self).state.get_spec(key@) is None,
            r matches Err(e) ==> e == LsmError::InvariantViolated && *final(self) == *old(self),
    {
        let value: Vec<u8> = Vec::new();
        self.put(key, value.as_slice())
    }

    /// Writes the oldest frozen memtable out as the newest table of level 0,
    /// under the identifier of the memtable; the tables that were there stay
    /// as they were. A memtable without entries is dropped and gives no
    /// table, since a table holds at least one block: level 0 and the tables
    /// then stay as they were. Every key reads as before. Where there is no
    /// frozen memtable, or the table cannot be encoded, nothing changes.
    #[verifier::rlimit(40)]
    pub fn force_flush_next_imm_memtable(&mut self) -> (r: Result<(), LsmError>)
        requires
            old(self).wf(),
        ensures
            final(self).wf(),
            r is Ok <==> old(self).state.imm_memtables@.len() > 0 && (old(
                self,
            ).state.imm_memtables@.last()@.len() == 0 || layout_encodable(
                layout_of(
                    old(self).state.imm_memtables@.last()@,
                    old(self).options.block_size as int,
                ),
            )),
            r is Ok ==> {
                let flushed = old(self).state.imm_memtables@.last();
                &&& final(self).state.memtable == old(self).state.memtable
                &&& final(self).state.imm_memtables@ == old(self).state.imm_memtables@.drop_last()
                &&& final(self).state.levels == old(self).state.levels
                &&& final(self).next_id() == old(self).next_id()
                &&& final(self).options == old(self).options
                &&& flushed@.len() == 0 ==> final(self).state.l0_sstables == old(
                    self,
                ).state.l0_sstables && final(self).state.sstables == old(self).state.sstables
                &&& flushed@.len() > 0 ==> final(self).state.l0_sstables@ == seq![
                    flushed.id_spec(),
                ] + old(self).state.l0_sstables@ && final(self).state.sstables@.dom() == old(
                    self,
                ).state.sstables@.dom().insert(flushed.id_spec())
                    && final(self).state.sstables@[flushed.id_spec()]@ == flushed@
                    && final(self).state.sstables@[flushed.id_spec()].id_spec()
                    == flushed.id_spec() && final(self).state.sstables@ == old(
                    self,
                ).state.sstables@.insert(
                    flushed.id_spec(),
                    final(self).state.sstables@[flushed.id_spec()],
                )
                &&& final(self).compaction_controller == old(self).compaction_controller
                &&& forall|k: Seq<u8>| final(self).state.get_spec(k) == old(self).state.get_spec(k)
            },
            r matches Err(e) ==> e == LsmError::InvariantViolated && *final(self) == *old(self),
    {
        let n: usize = self.state.imm_memtables.len();
        if n == 0 {
            return Err(LsmError::InvariantViolated);
        }
        let ghost ost = old(self).state;
        let ghost flushed = ost.imm_memtables@[n - 1];
        assert(flushed.wf());
        if self.state.imm_memtables[n - 1].is_empty() {
            self.state.imm_memtables.pop();
            proof {
                let st = self.state;
                assert forall|x: usize| st.referenced(x) == ost.referenced(x) by {}
                assert forall|i: int| 0 <= i < st.imm_memtables@.len() implies st.imm_memtables@[i]
                    == ost.imm_memtables@[i] by {}
                assert(imm_runs(st.imm_memtables@) =~= imm_runs(ost.imm_memtables@).drop_last());
                assert forall|k: Seq<u8>| st.get_spec(k) == ost.get_spec(k) by {
                    assert(st.mem_runs() =~= ost.mem_runs().drop_last());
                    lemma_first_hit_drop_last(ost.mem_runs(), k);
                    assert(ost.mem_runs().last() == flushed@);
                }
            }
            return Ok(());
        }
        let id: usize = self.state.imm_memtables[n - 1].id();
        let mut builder = SsTableBuilder::new(self.options.block_size);
        match self.state.imm_memtables[n - 1].flush(&mut builder) {
            Ok(()) => {},
            Err(e) => {
                return Err(e);
            },
        }
        proof {
            assert(builder@ =~= flushed@);
        }
        let table = match builder.build(id) {
            Ok(t) => t,
            Err(e) => {
                return Err(e);
            },
        };
        let table = Arc::new(table);
        self.state.l0_sstables.insert(0, id);
        self.state.sstables.insert(id, table);
        self.state.imm_memtables.pop();
        proof {
            let st = self.state;
            lemma_state_after_flush(ost, st, id, table);
            assert forall|x: usize| #[trigger] st.referenced(x) implies x < self.next_sst_id by {
                if x != id {
                    assert(ost.referenced(x)) by {
                        if st.l0_sstables@.contains(x) {
                            let i = choose|i: int|
                                0 <= i < st.l0_sstables@.len() && st.l0_sstables@[i] == x;
                            assert(ost.l0_sstables@[i - 1] == x);
                        }
                    }
                }
            }
            assert forall|i: int| 0 <= i < st.imm_memtables@.len() implies (
            #[trigger] st.imm_memtables@[i]).id_spec() < st.memtable.id_spec() && !st.referenced(
                st.imm_memtables@[i].id_spec(),
            ) by {
                assert(st.imm_memtables@[i] == ost.imm_memtables@[i]);
                let x = st.imm_memtables@[i].id_spec();
                assert(ost.imm_memtables@[n - 1].id_spec() < ost.imm_memtables@[i].id_spec());
                if st.l0_sstables@.contains(x) {
                    let j = choose|j: int| 0 <= j < st.l0_sstables@.len() && st.l0_sstables@[j] == x;
                    assert(ost.l0_sstables@[j - 1] == x);
                    assert(ost.referenced(x));
                }
            }
            assert(!st.referenced(st.memtable.id_spec())) by {
                let x = st.memtable.id_spec();
                if st.l0_sstables@.contains(x) {
                    let j = choose|j: int| 0 <= j < st.l0_sstables@.len() && st.l0_sstables@[j] == x;
                    assert(ost.l0_sstables@[j - 1] == x);
                    assert(ost.referenced(x));
                }
            }
        }
        Ok(())
    }
}

/// After a table with the entries of the oldest frozen memtable is put in
/// front of level 0 under an identifier that no table has, and the memtable
/// is dropped, the state is well formed and every key reads as before.
#[verifier::rlimit(40)]
proof fn lemma_state_after_flush(
    old: LsmStorageState,
    new: LsmStorageState,
    id: usize,
    table: Arc<SsTable>,
)
    requires
        old.wf(),
        old.imm_memtables@.len() > 0,
        !old.referenced(id),
        table.wf(),
        table.id_spec() == id,
        table@ == old.imm_memtables@.last()@,
        new.memtable == old.memtable,
        new.imm_memtables@ == old.imm_memtables@.drop_last(),
        new.l0_sstables@ == old.l0_sstables@.insert(0, id),
        new.levels == old.levels,
        new.sstables@ == old.sstables@.insert(id, table),
    ensures
        new.wf(),
        new.l0_sstables@ == seq![id] + old.l0_sstables@,
        new.sstables@.dom() == old.sstables@.dom().insert(id),
        forall|k: Seq<u8>| new.get_spec(k) == old.get_spec(k),
{
    let map = old.sstables@;
    let map2 = new.sstables@;
    assert(new.l0_sstables@ =~= seq![id] + old.l0_sstables@);
    assert(!old.l0_sstables@.contains(id));
    lemma_runs_after_insert(map, id, table, old.l0_sstables@);
    assert forall|i: int| 0 <= i < new.levels@.len() implies !(#[trigger] new.levels@[i]).1@.contains(
        id,
    ) by {
        if new.levels@[i].1@.contains(id) {
            assert(in_levels(old.levels@, id));
        }
    }
    assert forall|i: int| 0 <= i < new.levels@.len() implies ids_known(
        map2,
        (#[trigger] new.levels@[i]).1@,
    ) && blocks_ordered(id_runs(map2, new.levels@[i].1@)) && id_runs(map2, new.levels@[i].1@)
        == id_runs(map, new.levels@[i].1@) by {
        lemma_runs_after_insert(map, id, table, new.levels@[i].1@);
        assert(ids_known(map, old.levels@[i].1@));
    }
    assert(ids_known(map2, new.l0_sstables@)) by {
        assert forall|i: int| 0 <= i < new.l0_sstables@.len() implies map2.contains_key(
            #[trigger] new.l0_sstables@[i],
        ) && map2[new.l0_sstables@[i]].wf() && map2[new.l0_sstables@[i]].id_spec()
            == new.l0_sstables@[i] by {
            if i > 0 {
                assert(new.l0_sstables@[i] == old.l0_sstables@[i - 1]);
                assert(old.l0_sstables@.contains(old.l0_sstables@[i - 1]));
            }
        }
    }
    assert forall|x: usize| map2.contains_key(x) implies #[trigger] new.referenced(x) by {
        if x == id {
            assert(new.l0_sstables@[0] == id);
        } else {
            assert(old.referenced(x));
            if old.l0_sstables@.contains(x) {
                let i = choose|i: int| 0 <= i < old.l0_sstables@.len() && old.l0_sstables@[i] == x;
                assert(new.l0_sstables@[i + 1] == x);
            }
        }
    }
    assert forall|x: usize, i: int|
        #![trigger new.levels@[i].1@.contains(x)]
        0 <= i < new.levels@.len() && new.l0_sstables@.contains(x) implies !new.levels@[i].1@.contains(
        x,
    ) by {
        if x != id {
            let j = choose|j: int| 0 <= j < new.l0_sstables@.len() && new.l0_sstables@[j] == x;
            assert(old.l0_sstables@[j - 1] == x);
            assert(old.l0_sstables@.contains(x));
        }
    }
    assert forall|i: int| 0 <= i < new.imm_memtables@.len() implies (
    #[trigger] new.imm_memtables@[i]).wf() by {
        assert(new.imm_memtables@[i] == old.imm_memtables@[i]);
    }
    assert(map2.dom() =~= map.dom().insert(id));
    let flushed = old.imm_memtables@.last()@;
    assert(new.l0_runs() =~= seq![flushed] + old.l0_runs());
    assert(new.mem_runs() =~= old.mem_runs().drop_last());
    assert(old.mem_runs().last() == flushed);
    assert forall|k: Seq<u8>| new.get_spec(k) == old.get_spec(k) by {
        lemma_first_hit_drop_last(old.mem_runs(), k);
        lemma_first_hit_cons(flushed, old.l0_runs(), k);
        lemma_level_hit_same(map2, map, new.levels@, 0, k);
    }
}

/// The keys of a table reach into a range: the table does not end before
/// the range starts, nor start after the range ends.
pub open spec fn overlaps(t: Seq<Entry>, lower: BoundView, upper: BoundView) -> bool {
    &&& match lower {
        BoundView::Included(l) => !key_lt(t.last().0, l),
        BoundView::Excluded(l) => key_lt(l, t.last().0),
        BoundView::Unbounded => true,
    }
    &&& match upper {
        BoundView::Included(u) => !key_lt(u, t[0].0),
        BoundView::Excluded(u) => key_lt(t[0].0, u),
        BoundView::Unbounded => true,
    }
}

/// The tables whose keys reach into the range, in their order.
pub open spec fn selected(tables: Seq<Seq<Entry>>, lower: BoundView, upper: BoundView) -> Seq<
    Seq<Entry>,
>
    decreases tables.len(),
{
    if tables.len() == 0 {
        Seq::empty()
    } else if overlaps(tables.last(), lower, upper) {
        selected(tables.drop_last(), lower, upper).push(tables.last())
    } else {
        selected(tables.drop_last(), lower, upper)
    }
}

/// What each table of level 0 gives to a scan: of the tables whose keys
/// reach into the range, the entries from the lower end of the range on.
pub open spec fn l0_scan_runs(tables: Seq<Seq<Entry>>, lower: BoundView, upper: BoundView) -> Seq<
    Seq<Entry>,
>
    decreases tables.len(),
{
    if tables.len() == 0 {
        Seq::empty()
    } else if overlaps(tables.last(), lower, upper) {
        l0_scan_runs(tables.drop_last(), lower, upper).push(from_lower(tables.last(), lower))
    } else {
        l0_scan_runs(tables.drop_last(), lower, upper)
    }
}

/// What each memtable gives to a scan: its entries in the range.
pub open spec fn mem_scan_runs(runs: Seq<Seq<Entry>>, lower: BoundView, upper: BoundView) -> Seq<
    Seq<Entry>,
> {
    Seq::new(runs.len(), |i: int| range(runs[i], lower, upper))
}

/// What each deeper level gives to a scan: the tables whose keys reach into
/// the range, end to end, from the lower end of the range on.
pub open spec fn level_scan_runs(
    map: Map<usize, Arc<SsTable>>,
    levels: Seq<(usize, Vec<usize>)>,
    lower: BoundView,
    upper: BoundView,
) -> Seq<Seq<Entry>> {
    Seq::new(
        levels.len(),
        |i: int| from_lower(concat(selected(id_runs(map, levels[i].1@), lower, upper)), lower),
    )
}

impl LsmStorageState {
    /// What a scan of the range gives: the memtables merged, over the tables
    /// of level 0 merged, over the deeper levels merged, a newer layer
    /// winning where two hold a key, be it with a tombstone; then up to the
    /// upper end of the range, without the tombstones.
    pub open spec fn scan_spec(&self, lower: BoundView, upper: BoundView) -> Seq<Entry> {
        let mem = merge_n(mem_scan_runs(self.mem_runs(), lower, upper));
        let l0 = merge_n(l0_scan_runs(self.l0_runs(), lower, upper));
        let deep = merge_n(level_scan_runs(self.sstables@, self.levels@, lower, upper));
        live(prefix_within(merge2(merge2(mem, l0), deep), upper))
    }
}

/// Tells whether the keys of the table reach into the range.
fn range_overlap_with_sst(table: &Arc<SsTable>, lower: &Bound, upper: &Bound) -> (r: bool)
    requires
        table.wf(),
    ensures
        r == overlaps(table@, lower@, upper@),
{
    proof {
        table.lemma_wf();
    }
    let first_key = table.first_key();
    let last_key = table.last_key();
    match lower {
        Bound::Included(left) => {
            if key_less(last_key, left.as_slice()) {
                return false;
            }
        },
        Bound::Excluded(left) => {
            proof {
                lemma_key_lt_total(left@, table@.last().0);
            }
            if key_less_eq(last_key, left.as_slice()) {
                return false;
            }
        },
        Bound::Unbounded => {},
    }
    match upper {
        Bound::Included(right) => {
            if key_less(right.as_slice(), first_key) {
                return false;
            }
        },
        Bound::Excluded(right) => {
            proof {
                lemma_key_lt_total(table@[0].0, right@);
            }
            if key_less_eq(right.as_slice(), first_key) {
                return false;
            }
        },
        Bound::Unbounded => {},
    }
    true
}

/// An iterator over the entries of the table from the lower end of a range on.
fn table_iter_from(table: Arc<SsTable>, lower: &Bound) -> (r: Result<SsTableIterator, LsmError>)
    requires
        table.wf(),
    ensures
        r matches Ok(it) && it.wf() && it.remaining() == from_lower(table@, lower@),
{
    proof {
        crate::entries::lemma_lower_bound(
            table@,
            match lower@ {
                BoundView::Included(k) => k,
                BoundView::Excluded(k) => k,
                BoundView::Unbounded => Seq::empty(),
            },
        );
    }
    match lower {
        Bound::Included(key) => SsTableIterator::create_and_seek_to_key(table, key.as_slice()),
        Bound::Excluded(key) => {
            let mut iter = match SsTableIterator::create_and_seek_to_key(table, key.as_slice()) {
                Ok(it) => it,
                Err(e) => {
                    return Err(e);
                },
            };
            let ghost p = lower_bound(table@, key@);
            if iter.is_valid() && key_equal(iter.key(), key.as_slice()) {
                match iter.next() {
                    Ok(()) => {},
                    Err(e) => {
                        return Err(e);
                    },
                }
                proof {
                    assert(table@.skip(p).skip(1) =~= table@.skip(p + 1));
                    assert(table@.skip(p)[0] == table@[p]);
                }
            } else {
                proof {
                    if p < table@.len() {
                        assert(table@.skip(p)[0] == table@[p]);
                    }
                }
            }
            Ok(iter)
        },
        Bound::Unbounded => {
            proof {
                assert(table@.skip(0) =~= table@);
            }
            SsTableIterator::create_and_seek_to_first(table)
        },
    }
}

/// An iterator over the entries of the tables, end to end, from the lower
/// end of a range on.
fn concat_iter_from(ssts: Vec<Arc<SsTable>>, lower: &Bound) -> (r: Result<
    SstConcatIterator,
    LsmError,
>)
    requires
        tables_wf(ssts@),
    ensures
        r matches Ok(it) && it.wf() && it.remaining() == from_lower(
            concat(tables_view(ssts@)),
            lower@,
        ),
{
    let ghost run = concat(tables_view(ssts@));
    proof {
        crate::entries::lemma_lower_bound(
            run,
            match lower@ {
                BoundView::Included(k) => k,
                BoundView::Excluded(k) => k,
                BoundView::Unbounded => Seq::empty(),
            },
        );
    }
    match lower {
        Bound::Included(key) => SstConcatIterator::create_and_seek_to_key(ssts, key.as_slice()),
        Bound::Excluded(key) => {
            let mut iter = match SstConcatIterator::create_and_seek_to_key(ssts, key.as_slice()) {
                Ok(it) => it,
                Err(e) => {
                    return Err(e);
                },
            };
            let ghost p = lower_bound(run, key@);
            if iter.is_valid() && key_equal(iter.key(), key.as_slice()) {
                match iter.next() {
                    Ok(()) => {},
                    Err(e) => {
                        return Err(e);
                    },
                }
                proof {
                    assert(run.skip(p).skip(1) =~= run.skip(p + 1));
                    assert(run.skip(p)[0] == run[p]);
                }
            } else {
                proof {
                    if p < run.len() {
                        assert(run.skip(p)[0] == run[p]);
                    }
                }
            }
            Ok(iter)
        },
        Bound::Unbounded => {
            proof {
                assert(run.skip(0) =~= run);
            }
            SstConcatIterator::create_and_seek_to_first(ssts)
        },
    }
}

/// The iterators over the range of each memtable, newest first.
fn mem_scan_iters(state: &LsmStorageState, lower: &Bound, upper: &Bound) -> (r: Vec<
    MemTableIterator,
>)
    requires
        state.wf(),
    ensures
        all_wf(r@),
        runs_of(r@) == mem_scan_runs(state.mem_runs(), lower@, upper@),
{
    let ghost runs = state.mem_runs();
    let mut iters: Vec<MemTableIterator> = Vec::new();
    iters.push(state.memtable.scan(lower, upper));
    let n: usize = state.imm_memtables.len();
    let mut i: usize = 0;
    while i < n
        invariant
            0 <= i <= n,
            n == state.imm_memtables@.len(),
            state.wf(),
            runs == state.mem_runs(),
            all_wf(iters@),
            iters@.len() == i + 1,
            forall|j: int|
                0 <= j < iters@.len() ==> (#[trigger] iters@[j]).remaining() == range(
                    runs[j],
                    lower@,
                    upper@,
                ),
        decreases n - i,
    {
        assert(state.imm_memtables@[i as int].wf());
        let it = state.imm_memtables[i].scan(lower, upper);
        assert(runs[i + 1] == state.imm_memtables@[i as int]@);
        iters.push(it);
        i = i + 1;
    }
    assert(runs_of(iters@) =~= mem_scan_runs(runs, lower@, upper@));
    iters
}

/// The iterators over the tables of level 0 whose keys reach into the
/// range, each from the lower end of the range on.
fn l0_scan_iters(
    map: &HashMap<usize, Arc<SsTable>>,
    ids: &Vec<usize>,
    lower: &Bound,
    upper: &Bound,
) -> (r: Result<Vec<SsTableIterator>, LsmError>)
    requires
        ids_known(map@, ids@),
    ensures
        r matches Ok(iters) && all_wf(iters@) && runs_of(iters@) == l0_scan_runs(
            id_runs(map@, ids@),
            lower@,
            upper@,
        ),
{
    let ghost tables = id_runs(map@, ids@);
    let n: usize = ids.len();
    let mut iters: Vec<SsTableIterator> = Vec::new();
    let mut i: usize = 0;
    proof {
        assert(tables.take(0) =~= Seq::<Seq<Entry>>::empty());
        assert(runs_of(iters@) =~= Seq::<Seq<Entry>>::empty());
    }
    while i < n
        invariant
            0 <= i <= n,
            n == ids@.len(),
            tables == id_runs(map@, ids@),
            ids_known(map@, ids@),
            all_wf(iters@),
            runs_of(iters@) == l0_scan_runs(tables.take(i as int), lower@, upper@),
        decreases n - i,
    {
        assert(map@.contains_key(ids@[i as int]));
        let table = table_of(map, ids[i]);
        proof {
            let next = tables.take(i + 1);
            assert(next.drop_last() =~= tables.take(i as int));
            assert(next.last() == table@);
        }
        if range_overlap_with_sst(table, lower, upper) {
            let iter = match table_iter_from(share(table), lower) {
                Ok(it) => it,
                Err(e) => {
                    return Err(e);
                },
            };
            let ghost before = iters@;
            iters.push(iter);
            proof {
                assert(runs_of(iters@) =~= runs_of(before).push(iter.remaining()));
            }
        }
        i = i + 1;
    }
    assert(tables.take(n as int) =~= tables);
    Ok(iters)
}

/// The tables of a level whose keys reach into the range, in their order.
fn select_tables(
    map: &HashMap<usize, Arc<SsTable>>,
    ids: &Vec<usize>,
    lower: &Bound,
    upper: &Bound,
) -> (r: Vec<Arc<SsTable>>)
    requires
        ids_known(map@, ids@),
    ensures
        tables_wf(r@),
        tables_view(r@) == selected(id_runs(map@, ids@), lower@, upper@),
{
    let ghost tables = id_runs(map@, ids@);
    let n: usize = ids.len();
    let mut ssts: Vec<Arc<SsTable>> = Vec::new();
    let mut i: usize = 0;
    proof {
        assert(tables.take(0) =~= Seq::<Seq<Entry>>::empty());
        assert(tables_view(ssts@) =~= Seq::<Seq<Entry>>::empty());
    }
    while i < n
        invariant
            0 <= i <= n,
            n == ids@.len(),
            tables == id_runs(map@, ids@),
            ids_known(map@, ids@),
            tables_wf(ssts@),
            tables_view(ssts@) == selected(tables.take(i as int), lower@, upper@),
        decreases n - i,
    {
        assert(map@.contains_key(ids@[i as int]));
        let table = table_of(map, ids[i]);
        proof {
            let next = tables.take(i + 1);
            assert(next.drop_last() =~= tables.take(i as int));
            assert(next.last() == table@);
        }
        if range_overlap_with_sst(table, lower, upper) {
            let ghost before = ssts@;
            ssts.push(share(table));
            proof {
                assert(tables_view(ssts@) =~= tables_view(before).push(table@));
            }
        }
        i = i + 1;
    }
    assert(tables.take(n as int) =~= tables);
    ssts
}

/// The iterators over the deeper levels: for each level, over its tables
/// whose keys reach into the range, end to end, from the lower end on.
fn level_scan_iters(
    map: &HashMap<usize, Arc<SsTable>>,
    levels: &Vec<(usize, Vec<usize>)>,
    lower: &Bound,
    upper: &Bound,
) -> (r: Result<Vec<SstConcatIterator>, LsmError>)
    requires
        forall|i: int| 0 <= i < levels@.len() ==> ids_known(map@, (#[trigger] levels@[i]).1@),
    ensures
        r matches Ok(iters) && all_wf(iters@) && runs_of(iters@) == level_scan_runs(
            map@,
            levels@,
            lower@,
            upper@,
        ),
{
    let n: usize = levels.len();
    let mut iters: Vec<SstConcatIterator> = Vec::new();
    let mut i: usize = 0;
    while i < n
        invariant
            0 <= i <= n,
            n == levels@.len(),
            forall|j: int| 0 <= j < levels@.len() ==> ids_known(map@, (#[trigger] levels@[j]).1@),
            all_wf(iters@),
            iters@.len() == i,
            forall|j: int|
                0 <= j < i ==> (#[trigger] iters@[j]).remaining() == from_lower(
                    concat(selected(id_runs(map@, levels@[j].1@), lower@, upper@)),
                    lower@,
                ),
        decreases n - i,
    {
        assert(ids_known(map@, levels@[i as int].1@));
        let ssts = select_tables(map, &levels[i].1, lower, upper);
        let iter = match concat_iter_from(ssts, lower) {
            Ok(it) => it,
            Err(e) => {
                return Err(e);
            },
        };
        iters.push(iter);
        i = i + 1;
    }
    assert(runs_of(iters@) =~= level_scan_runs(map@, levels@, lower@, upper@));
    Ok(iters)
}

impl LsmStorageInner {
    /// An iterator over the entries in the range from `lower` to `upper`,
    /// by increasing key, without tombstones.
    pub fn scan(&self, lower: &Bound, upper: &Bound) -> (r: Result<
        FusedIterator<LsmIterator>,
        LsmError,
    >)
        requires
            self.wf(),
        ensures
            r matches Ok(it) && it.wf() && !it.errored() && it.remaining()
                == self.state.scan_spec(lower@, upper@),
    {
        let mem_iters = mem_scan_iters(&self.state, lower, upper);
        let mem_merge_iter = MergeIterator::create(mem_iters);
        let l0_iters = match l0_scan_iters(
            &self.state.sstables,
            &self.state.l0_sstables,
            lower,
            upper,
        ) {
            Ok(iters) => iters,
            Err(e) => {
                return Err(e);
            },
        };
        let l0_merge_iter = MergeIterator::create(l0_iters);
        let level_iters = match level_scan_iters(
            &self.state.sstables,
            &self.state.levels,
            lower,
            upper,
        ) {
            Ok(iters) => iters,
            Err(e) => {
                return Err(e);
            },
        };
        let upper_part = match TwoMergeIterator::create(mem_merge_iter, l0_merge_iter) {
            Ok(it) => it,
            Err(e) => {
                return Err(e);
            },
        };
        let inner = match TwoMergeIterator::create(upper_part, MergeIterator::create(level_iters)) {
            Ok(it) => it,
            Err(e) => {
                return Err(e);
            },
        };
        let iter = match LsmIterator::new(inner, upper.duplicate()) {
            Ok(it) => it,
            Err(e) => {
                return Err(e);
            },
        };
        Ok(FusedIterator::new(iter))
    }
}

/// No read gives an empty value: what `get` gives for a key is not empty,
/// and no entry that a scan gives has an empty value.
pub proof fn lemma_tombstones_hidden(
    state: LsmStorageState,
    k: Seq<u8>,
    lower: BoundView,
    upper: BoundView,
)
    ensures
        state.get_spec(k) matches Some(v) ==> v.len() > 0,
        forall|i: int|
            0 <= i < state.scan_spec(lower, upper).len() ==> (#[trigger] state.scan_spec(
                lower,
                upper,
            )[i]).1.len() > 0,
{
    let mem = merge_n(mem_scan_runs(state.mem_runs(), lower, upper));
    let l0 = merge_n(l0_scan_runs(state.l0_runs(), lower, upper));
    let deep = merge_n(level_scan_runs(state.sstables@, state.levels@, lower, upper));
    lemma_live_no_tombstone(prefix_within(merge2(merge2(mem, l0), deep), upper));
}

/// One step of a batch of writes.
pub enum WriteBatchRecord<T> {
    /// Store the second under the first.
    Put(T, T),
    /// Delete the key.
    Del(T),
}

impl LsmStorageInner {
    /// Whether the oldest frozen memtable can be written out as a table.
    pub open spec fn can_flush(&self, oldest: Seq<Entry>) -> bool {
        oldest.len() == 0 || layout_encodable(layout_of(oldest, self.options.block_size as int))
    }

    /// Freezes the memtable if it has entries, then writes the oldest frozen
    /// memtable out if there is one. Every key reads as before, also where
    /// one of the two steps is refused. The tables that were there, the
    /// levels below level 0, the options and the strategy stay as they were;
    /// so do the other frozen memtables, and the memtable if it is not frozen.
    pub fn force_flush(&mut self) -> (r: Result<(), LsmError>)
        requires
            old(self).wf(),
        ensures
            final(self).wf(),
            final(self).options == old(self).options,
            final(self).compaction_controller == old(self).compaction_controller,
            final(self).state.levels == old(self).state.levels,
            forall|k: Seq<u8>| final(self).state.get_spec(k) == old(self).state.get_spec(k),
            ({
                let st = old(self).state;
                let freezes = st.memtable@.len() > 0;
                let oldest = if st.imm_memtables@.len() > 0 {
                    st.imm_memtables@.last()@
                } else {
                    st.memtable@
                };
                r is Ok <==> (!freezes || !old(self).exhausted()) && ((!freezes
                    && st.imm_memtables@.len() == 0) || old(self).can_flush(oldest))
            }),
            r is Ok ==> {
                let st = old(self).state;
                let freezes = st.memtable@.len() > 0;
                let oldest = if st.imm_memtables@.len() > 0 {
                    *st.imm_memtables@.last()
                } else {
                    st.memtable
                };
                let flushes = freezes || st.imm_memtables@.len() > 0;
                &&& final(self).state.memtable@.len() == 0
                &&& final(self).next_id() == if freezes {
                    old(self).next_id() + 1
                } else {
                    old(self).next_id() as int
                }
                &&& final(self).state.memtable.id_spec() == if freezes {
                    old(self).next_id()
                } else {
                    st.memtable.id_spec()
                }
                &&& final(self).state.imm_memtables@.len() == if st.imm_memtables@.len() > 0
                    && freezes {
                    st.imm_memtables@.len() as int
                } else if st.imm_memtables@.len() > 0 {
                    st.imm_memtables@.len() - 1
                } else {
                    0
                }
                &&& if freezes {
                    &&& final(self).state.memtable.size_spec() == 0
                    &&& st.imm_memtables@.len() > 0 ==> *final(self).state.imm_memtables@[0]
                        == st.memtable && final(self).state.imm_memtables@.skip(1)
                        == st.imm_memtables@.drop_last()
                } else {
                    &&& final(self).state.memtable == st.memtable
                    &&& st.imm_memtables@.len() > 0 ==> final(self).state.imm_memtables@
                        == st.imm_memtables@.drop_last()
                }
                &&& final(self).state.sstables@ == if flushes && oldest@.len() > 0 {
                    st.sstables@.insert(
                        oldest.id_spec(),
                        final(self).state.sstables@[oldest.id_spec()],
                    )
                } else {
                    st.sstables@
                }
                &&& flushes && oldest@.len() > 0 ==> final(self).state.sstables@[oldest.id_spec()].id_spec() == oldest.id_spec()
                &&& final(self).state.l0_sstables@ == if flushes && oldest@.len() > 0 {
                    seq![oldest.id_spec()] + st.l0_sstables@
                } else {
                    st.l0_sstables@
                }
                &&& flushes && oldest@.len() > 0 ==> final(self).state.sstables@[oldest.id_spec()]@
                    == oldest@
            },
            r matches Err(e) ==> e == LsmError::InvariantViolated,
    {
        if !self.state.memtable.is_empty() {
            match self.force_freeze_memtable() {
                Ok(()) => {},
                Err(e) => {
                    return Err(e);
                },
            }
            proof {
                let st = self.state;
                let ost = old(self).state;
                assert(imm_runs(st.imm_memtables@) =~= st.mem_runs().skip(1));
                assert(st.mem_runs().skip(1) =~= ost.mem_runs());
                assert(imm_runs(st.imm_memtables@).last() == ost.mem_runs().last());
                assert(imm_runs(st.imm_memtables@).last() == st.imm_memtables@.last()@);
                if ost.imm_memtables@.len() > 0 {
                    assert(ost.mem_runs().last() == ost.imm_memtables@.last()@);
                    assert(st.imm_memtables@.last() == st.imm_memtables@.skip(1).last());
                    assert(st.imm_memtables@.drop_last().skip(1) =~= ost.imm_memtables@.drop_last());
                    assert(st.imm_memtables@.drop_last()[0] == st.imm_memtables@[0]);
                } else {
                    assert(ost.mem_runs().last() == ost.memtable@);
                    assert(st.imm_memtables@.last() == st.imm_memtables@[0]);
                }
            }
        }
        if self.state.imm_memtables.len() > 0 {
            return self.force_flush_next_imm_memtable();
        }
        Ok(())
    }

    /// Writes the oldest frozen memtable out if, with the memtable that takes
    /// the writes, the memtables in memory have reached their limit.
    pub fn trigger_flush(&mut self) -> (r: Result<(), LsmError>)
        requires
            old(self).wf(),
        ensures
            final(self).wf(),
            final(self).options == old(self).options,
            forall|k: Seq<u8>| final(self).state.get_spec(k) == old(self).state.get_spec(k),
            ({
                let st = old(self).state;
                let due = st.imm_memtables@.len() > 0 && st.imm_memtables@.len() + 1 >= old(
                    self,
                ).options.num_memtable_limit;
                &&& r is Ok <==> !due || old(self).can_flush(st.imm_memtables@.last()@)
                &&& !due ==> *final(self) == *old(self)
                &&& due && r is Ok ==> final(self).state.imm_memtables@.len()
                    == st.imm_memtables@.len() - 1
            }),
            r matches Err(e) ==> e == LsmError::InvariantViolated && *final(self) == *old(self),
    {
        let n: usize = self.state.imm_memtables.len();
        if n > 0 && n >= self.options.num_memtable_limit.saturating_sub(1) {
            return self.force_flush_next_imm_memtable();
        }
        Ok(())
    }
}

/// The decimal digits of `n`, as ASCII.
pub open spec fn decimal(n: nat) -> Seq<u8>
    decreases n,
{
    if n < 10 {
        seq![(48 + n) as u8]
    } else {
        decimal(n / 10).push((48 + n % 10) as u8)
    }
}

/// `count` times the digit 0, as ASCII.
pub open spec fn zeros(count: int) -> Seq<u8> {
    Seq::new(
        if count > 0 {
            count as nat
        } else {
            0
        },
        |i: int| 48u8,
    )
}

/// The name of the file of the table with the given identifier: the
/// identifier in decimal, filled with zeros to five digits, and `.sst`.
pub open spec fn sst_file_name_spec(id: nat) -> Seq<u8> {
    zeros(5 - decimal(id).len()) + decimal(id) + seq![46u8, 115u8, 115u8, 116u8]
}

/// The name of the file of the table with the given identifier, as ASCII.
pub fn sst_file_name(id: usize) -> (r: Vec<u8>)
    ensures
        r@ == sst_file_name_spec(id as nat),
{
    // the digits, the last first
    let mut reversed: Vec<u8> = Vec::new();
    let mut rest: usize = id;
    reversed.push(48 + (rest % 10) as u8);
    rest = rest / 10;
    while rest > 0
        invariant
            reversed@.len() >= 1,
            decimal(id as nat) == if rest > 0 {
                decimal(rest as nat) + reversed@.reverse()
            } else {
                reversed@.reverse()
            },
        decreases rest,
    {
        let ghost before = reversed@;
        let ghost prev = rest;
        reversed.push(48 + (rest % 10) as u8);
        rest = rest / 10;
        proof {
            let d = (48 + prev % 10) as u8;
            assert(reversed@.reverse() =~= seq![d] + before.reverse());
            if rest > 0 {
                assert(decimal(prev as nat) == decimal(rest as nat).push(d));
                assert(decimal(rest as nat).push(d) + before.reverse() =~= decimal(rest as nat)
                    + reversed@.reverse());
            } else {
                assert(decimal(prev as nat) =~= seq![d]);
            }
        }
    }
    proof {
        if id < 10 {
            assert(reversed@.reverse() =~= decimal(id as nat));
        }
    }
    let digits: usize = reversed.len();
    let mut name: Vec<u8> = Vec::new();
    let mut i: usize = digits;
    while i < 5
        invariant
            digits <= i,
            i <= 5 || i == digits,
            name@ == zeros(i - digits),
        decreases 5 - i,
    {
        name.push(48);
        assert(name@ =~= zeros(i + 1 - digits));
        i = i + 1;
    }
    assert(name@ == zeros(5 - digits)) by {
        assert(zeros(i - digits) =~= zeros(5 - digits));
    }
    let mut j: usize = digits;
    while j > 0
        invariant
            0 <= j <= digits,
            digits == reversed@.len(),
            name@ == zeros(5 - digits) + reversed@.reverse().subrange(0, digits - j),
        decreases j,
    {
        j = j - 1;
        name.push(reversed[j]);
        proof {
            let r = reversed@.reverse();
            assert(r[digits - 1 - j] == reversed@[j as int]);
            assert(r.subrange(0, digits - j) =~= r.subrange(0, digits - j - 1).push(
                r[digits - 1 - j],
            ));
        }
    }
    proof {
        let r = reversed@.reverse();
        assert(r.subrange(0, digits as int) =~= r);
    }
    name.push(46);
    name.push(115);
    name.push(115);
    name.push(116);
    assert(name@ =~= sst_file_name_spec(id as nat));
    name
}

} // verus!
