//! Compaction: which tables to merge, and what the merge does to the levels.

pub mod simple_leveled;

use crate::compact::simple_leveled::{
    applied, first_unbalanced, lemma_first_unbalanced, SimpleLeveledCompactionController,
    SimpleLeveledCompactionOptions, SimpleLeveledCompactionTask, TaskView,
};
use crate::entries::{
    blocks_ordered, concat, each, first_hit, fits, lemma_chunks_ordered, lemma_concat_each,
    lemma_concat_push, lemma_concat_sorted, lemma_first_hit_concat, lemma_live_each,
    lemma_live_sorted, lemma_live_take, lemma_lookup_live, lemma_lookup_merge2, lemma_lookup_merge_n,
    lemma_merge2_each, lemma_merge2_sorted, lemma_merge_n_each, lemma_merge_n_sorted, live, lookup,
    merge2, merge_n, or_else, sorted, visible, Entry,
};
use crate::error::LsmError;
use crate::iterators::StorageIterator;
use crate::iterators::concat_iterator::{tables_view, tables_wf, SstConcatIterator};
use crate::iterators::merge_iterator::{all_wf, runs_of, MergeIterator};
use crate::iterators::two_merge_iterator::TwoMergeIterator;
use crate::key::key_lt;
use crate::lsm_storage::{
    id_runs, ids_known, in_levels, level_hit, LsmStorageInner, LsmStorageState,
};
use crate::table::{share, SsTable};
use crate::table::builder::{blocks_len, layout_encodable, layout_of, SsTableBuilder};
use crate::table::iterator::SsTableIterator;
use std::collections::HashMap;
use std::sync::Arc;
use vstd::prelude::*;
use vstd::std_specs::hash::*;

verus! {

broadcast use vstd::std_specs::hash::group_hash_axioms;

/// The identifiers of `ids` that are not among `remove`, in their order.
pub open spec fn without(ids: Seq<usize>, remove: Seq<usize>) -> Seq<usize>
    decreases ids.len(),
{
    if ids.len() == 0 {
        Seq::empty()
    } else if remove.contains(ids.last()) {
        without(ids.drop_last(), remove)
    } else {
        without(ids.drop_last(), remove).push(ids.last())
    }
}

/// What is left of a list of identifiers holds `x` exactly if the list holds
/// it and it is not removed.
pub proof fn lemma_without_contains(ids: Seq<usize>, remove: Seq<usize>, x: usize)
    ensures
        without(ids, remove).contains(x) <==> ids.contains(x) && !remove.contains(x),
    decreases ids.len(),
{
    if ids.len() > 0 {
        let init = ids.drop_last();
        let last = ids.last();
        lemma_without_contains(init, remove, x);
        let w = without(ids, remove);
        let wi = without(init, remove);
        // the list holds x exactly if its front does or its last is x
        if init.contains(x) {
            let j = choose|j: int| 0 <= j < init.len() && init[j] == x;
            assert(ids[j] == x);
        }
        if ids.contains(x) && last != x {
            let j = choose|j: int| 0 <= j < ids.len() && ids[j] == x;
            assert(init[j] == x);
        }
        assert(ids[ids.len() - 1] == last);
        if remove.contains(last) {
            assert(w == wi);
        } else {
            assert(w == wi.push(last));
            if wi.contains(x) {
                let i = choose|i: int| 0 <= i < wi.len() && wi[i] == x;
                assert(w[i] == x);
            }
            if w.contains(x) && last != x {
                let i = choose|i: int| 0 <= i < w.len() && w[i] == x;
                assert(wi[i] == x);
            }
            assert(w[w.len() - 1] == last);
        }
    }
}

/// What is left of a list of identifiers holds none of those removed, and
/// holds every other identifier of the list.
pub proof fn lemma_without(ids: Seq<usize>, remove: Seq<usize>)
    ensures
        forall|x: usize|
            #[trigger] without(ids, remove).contains(x) <==> ids.contains(x) && !remove.contains(x),
{
    assert forall|x: usize| #[trigger]
        without(ids, remove).contains(x) <==> ids.contains(x) && !remove.contains(x) by {
        lemma_without_contains(ids, remove, x);
    }
}

/// Tells whether `x` is among `ids`.
pub fn contains_id(ids: &[usize], x: usize) -> (r: bool)
    ensures
        r == ids@.contains(x),
{
    let mut i: usize = 0;
    while i < ids.len()
        invariant
            0 <= i <= ids@.len(),
            forall|j: int| 0 <= j < i ==> ids@[j] != x,
        decreases ids@.len() - i,
    {
        if ids[i] == x {
            return true;
        }
        i = i + 1;
    }
    false
}

/// A copy of a list of identifiers.
pub fn copy_ids(ids: &[usize]) -> (r: Vec<usize>)
    ensures
        r@ == ids@,
{
    let mut r: Vec<usize> = Vec::new();
    let mut i: usize = 0;
    while i < ids.len()
        invariant
            0 <= i <= ids@.len(),
            r@ == ids@.subrange(0, i as int),
        decreases ids@.len() - i,
    {
        r.push(ids[i]);
        assert(ids@.subrange(0, i + 1) =~= ids@.subrange(0, i as int).push(ids@[i as int]));
        i = i + 1;
    }
    assert(ids@.subrange(0, ids@.len() as int) =~= ids@);
    r
}

/// The identifiers of `ids` that are not among `remove`, in their order.
pub fn remove_ids(ids: &[usize], remove: &[usize]) -> (r: Vec<usize>)
    ensures
        r@ == without(ids@, remove@),
{
    let mut r: Vec<usize> = Vec::new();
    let mut i: usize = 0;
    while i < ids.len()
        invariant
            0 <= i <= ids@.len(),
            r@ == without(ids@.subrange(0, i as int), remove@),
        decreases ids@.len() - i,
    {
        proof {
            let next = ids@.subrange(0, i + 1);
            assert(next.drop_last() =~= ids@.subrange(0, i as int));
            assert(next.last() == ids@[i as int]);
        }
        if !contains_id(remove, ids[i]) {
            r.push(ids[i]);
        }
        i = i + 1;
    }
    assert(ids@.subrange(0, ids@.len() as int) =~= ids@);
    r
}

/// Which tables to merge, and where the result goes.
pub enum CompactionTask {
    /// A task of the simple leveled strategy.
    Simple(SimpleLeveledCompactionTask),
    /// All tables of level 0 and level 1 are merged into level 1.
    ForceFullCompaction { l0_sstables: Vec<usize>, l1_sstables: Vec<usize> },
}

impl CompactionTask {
    /// Tells whether the task counts as one whose result goes to the deepest
    /// level: a full compaction always does, another task says so itself.
    /// Whether a full compaction drops the tombstones is decided by the
    /// levels of the store, see `drops_tombstones`.
    pub fn compact_to_bottom_level(&self) -> (r: bool)
        ensures
            r == match self {
                CompactionTask::ForceFullCompaction { .. } => true,
                CompactionTask::Simple(task) => task.is_lower_level_bottom_level,
            },
    {
        match self {
            CompactionTask::ForceFullCompaction { .. } => true,
            CompactionTask::Simple(task) => task.is_lower_level_bottom_level,
        }
    }
}

/// The strategy that decides when to compact which tables.
#[derive(Clone)]
pub enum CompactionController {
    /// The simple leveled strategy.
    Simple(SimpleLeveledCompactionController),
    /// No compaction takes place by itself.
    NoCompaction,
}

impl CompactionController {
    /// This is the strategy that the options name, with their settings.
    pub open spec fn steered_by(&self, options: CompactionOptions) -> bool {
        match options {
            CompactionOptions::Simple(o) => *self matches CompactionController::Simple(c)
                && c.options_spec() == o,
            CompactionOptions::NoCompaction => *self is NoCompaction,
        }
    }

    /// The task that the strategy asks for in this state, if any.
    pub fn generate_compaction_task(&self, snapshot: &LsmStorageState) -> (r: Option<
        CompactionTask,
    >)
        requires
            self is Simple,
            snapshot.levels@.len() > 0,
        ensures
            match r {
                Some(CompactionTask::Simple(task)) => self->Simple_0.task_spec(*snapshot) == Some(
                    task@,
                ),
                Some(_) => false,
                None => self->Simple_0.task_spec(*snapshot) is None,
            },
    {
        match self {
            CompactionController::Simple(ctrl) => match ctrl.generate_compaction_task(snapshot) {
                Some(task) => Some(CompactionTask::Simple(task)),
                None => None,
            },
            CompactionController::NoCompaction => vstd::pervasive::unreached(),
        }
    }

    /// The state after the tables of `task` have been merged into the tables
    /// `output`, and the identifiers of the tables that are no longer needed.
    pub fn apply_compaction_result(
        &self,
        snapshot: LsmStorageState,
        task: &CompactionTask,
        output: &[usize],
        in_recovery: bool,
    ) -> (r: (LsmStorageState, Vec<usize>))
        requires
            self is Simple,
            task is Simple,
            task->Simple_0@.fits(snapshot.levels@.len() as int),
        ensures
            simple_leveled::applied(snapshot, task->Simple_0@, output@, r.0),
            r.1@ == task->Simple_0@.upper_level_sst_ids + task->Simple_0@.lower_level_sst_ids,
    {
        match (self, task) {
            (CompactionController::Simple(ctrl), CompactionTask::Simple(task)) => {
                ctrl.apply_compaction_result(snapshot, task, output)
            },
            _ => vstd::pervasive::unreached(),
        }
    }

    /// Tells whether a flushed memtable becomes a table of level 0.
    pub fn flush_to_l0(&self) -> (r: bool)
        ensures
            r,
    {
        match self {
            CompactionController::Simple(_) => true,
            CompactionController::NoCompaction => true,
        }
    }
}

/// Which strategy compacts the tables.
#[derive(Debug, Clone, Copy)]
pub enum CompactionOptions {
    /// The simple leveled strategy.
    Simple(SimpleLeveledCompactionOptions),
    /// No compaction takes place by itself; every flush goes to level 0.
    NoCompaction,
}

/// The tables that a compaction has finished and the entries of the table
/// that it is filling.
pub struct Cut {
    pub done: Seq<Seq<Entry>>,
    pub cur: Seq<Entry>,
}

/// The cut after an entry is added: the entry goes into the table being
/// filled, and that table is finished if its closed blocks have then reached
/// the size of a table.
pub open spec fn cut_add(c: Cut, e: Entry, block_size: int, target: int) -> Cut {
    let cur = c.cur.push(e);
    if blocks_len(layout_of(cur, block_size).closed) >= target {
        Cut { done: c.done.push(cur), cur: Seq::empty() }
    } else {
        Cut { done: c.done, cur }
    }
}

/// The cut after `entries` are added in order.
pub open spec fn cut_of(entries: Seq<Entry>, block_size: int, target: int) -> Cut
    decreases entries.len(),
{
    if entries.len() == 0 {
        Cut { done: Seq::empty(), cur: Seq::empty() }
    } else {
        cut_add(cut_of(entries.drop_last(), block_size, target), entries.last(), block_size, target)
    }
}

/// The tables that `entries` are cut into: the finished ones, and the one
/// being filled if it has entries.
pub open spec fn cut_tables(entries: Seq<Entry>, block_size: int, target: int) -> Seq<Seq<Entry>> {
    let c = cut_of(entries, block_size, target);
    if c.cur.len() > 0 {
        c.done.push(c.cur)
    } else {
        c.done
    }
}

/// Every one of the tables can be encoded.
pub open spec fn all_encodable(tables: Seq<Seq<Entry>>, block_size: int) -> bool {
    forall|j: int|
        0 <= j < tables.len() ==> layout_encodable(layout_of(#[trigger] tables[j], block_size))
}

/// The tables of a cut hold the entries in order and each has entries; the
/// table being filled ends with the last entry.
pub proof fn lemma_cut(entries: Seq<Entry>, block_size: int, target: int)
    ensures
        concat(cut_of(entries, block_size, target).done) + cut_of(entries, block_size, target).cur
            == entries,
        forall|j: int|
            0 <= j < cut_of(entries, block_size, target).done.len() ==> (#[trigger] cut_of(
                entries,
                block_size,
                target,
            ).done[j]).len() > 0,
        cut_of(entries, block_size, target).cur.len() > 0 ==> cut_of(
            entries,
            block_size,
            target,
        ).cur.last() == entries.last(),
        concat(cut_tables(entries, block_size, target)) == entries,
        forall|j: int|
            0 <= j < cut_tables(entries, block_size, target).len() ==> (#[trigger] cut_tables(
                entries,
                block_size,
                target,
            )[j]).len() > 0,
    decreases entries.len(),
{
    let c = cut_of(entries, block_size, target);
    if entries.len() == 0 {
        assert(concat(c.done) + c.cur =~= entries);
        assert(concat(cut_tables(entries, block_size, target)) =~= entries);
    } else {
        let init = entries.drop_last();
        let ci = cut_of(init, block_size, target);
        lemma_cut(init, block_size, target);
        let cur = ci.cur.push(entries.last());
        lemma_concat_push(ci.done, cur, 0);
        assert(init.push(entries.last()) =~= entries);
        assert(concat(ci.done) + cur =~= (concat(ci.done) + ci.cur).push(entries.last()));
        assert(concat(ci.done) + cur =~= entries);
        if c.cur.len() == 0 {
            assert(concat(c.done) + c.cur =~= entries);
        }
        lemma_concat_push(c.done, c.cur, 0);
        assert(concat(c.done) + c.cur =~= entries);
    }
}

/// The tables finished after the first entries are among the tables that
/// all entries are cut into, at the same places.
pub proof fn lemma_cut_prefix(entries: Seq<Entry>, i: int, block_size: int, target: int)
    requires
        0 <= i <= entries.len(),
    ensures
        cut_of(entries.take(i), block_size, target).done.len() <= cut_of(
            entries,
            block_size,
            target,
        ).done.len(),
        forall|j: int|
            0 <= j < cut_of(entries.take(i), block_size, target).done.len() ==> cut_of(
                entries,
                block_size,
                target,
            ).done[j] == #[trigger] cut_of(entries.take(i), block_size, target).done[j],
    decreases entries.len() - i,
{
    if i < entries.len() {
        let init = entries.drop_last();
        assert(init.take(i) =~= entries.take(i));
        lemma_cut_prefix(init, i, block_size, target);
    } else {
        assert(entries.take(i) =~= entries);
    }
}

/// What a compaction writes of the entries that it reads: all of them, or
/// all but the tombstones.
pub open spec fn written(entries: Seq<Entry>, drop_tombstones: bool) -> Seq<Entry> {
    if drop_tombstones {
        live(entries)
    } else {
        entries
    }
}

/// Writes what an iterator has still to give into tables, without the
/// tombstones if asked so: a table is finished as soon as its closed blocks
/// have reached `target` bytes, and the tables get the identifiers from
/// `first_id` on.
#[verifier::rlimit(60)]
pub fn drain_into_tables<I: StorageIterator>(
    iter: I,
    block_size: usize,
    target: usize,
    first_id: usize,
    drop_tombstones: bool,
) -> (r: Result<Vec<Arc<SsTable>>, LsmError>)
    requires
        iter.wf(),
        !I::can_fail(),
        sorted(iter.remaining()),
        each(iter.remaining(), |e: Entry| fits(e)),
    ensures
        r is Ok <==> all_encodable(
            cut_tables(
                written(iter.remaining(), drop_tombstones),
                block_size as int,
                target as int,
            ),
            block_size as int,
        ) && first_id + cut_tables(
            written(iter.remaining(), drop_tombstones),
            block_size as int,
            target as int,
        ).len() <= usize::MAX,
        r matches Ok(v) ==> {
            let tables = cut_tables(
                written(iter.remaining(), drop_tombstones),
                block_size as int,
                target as int,
            );
            &&& v@.len() == tables.len()
            &&& forall|j: int|
                0 <= j < v@.len() ==> (#[trigger] v@[j]).wf() && v@[j]@ == tables[j]
                    && v@[j].id_spec() == first_id + j
        },
        r matches Err(e) ==> e == LsmError::InvariantViolated,
{
    let ghost input = iter.remaining();
    let ghost w = written(input, drop_tombstones);
    let ghost bs = block_size as int;
    let ghost tg = target as int;
    let mut source = iter;
    let mut tables: Vec<Arc<SsTable>> = Vec::new();
    let mut builder = SsTableBuilder::new(block_size);
    let mut next_id: usize = first_id;
    let ghost mut i: int = 0;
    let ghost mut m: int = 0;
    proof {
        assert(input.skip(0) =~= input);
        assert(input.take(0) =~= Seq::<Entry>::empty());
        assert(w.take(0) =~= Seq::<Entry>::empty());
        assert(builder@ =~= Seq::<Entry>::empty());
        lemma_live_sorted(input);
        lemma_live_each(input, |e: Entry| fits(e));
    }
    while source.is_valid()
        invariant
            source.wf(),
            input == iter.remaining(),
            w == written(input, drop_tombstones),
            !I::can_fail(),
            sorted(w),
            each(w, |e: Entry| fits(e)),
            bs == block_size as int,
            tg == target as int,
            0 <= i <= input.len(),
            0 <= m <= w.len(),
            w.take(m) == written(input.take(i), drop_tombstones),
            source.remaining() == input.skip(i),
            builder.wf(),
            builder.limit() == bs,
            builder@ == cut_of(w.take(m), bs, tg).cur,
            builder.layout() == layout_of(builder@, bs),
            tables@.len() == cut_of(w.take(m), bs, tg).done.len(),
            next_id == first_id + tables@.len(),
            forall|j: int|
                0 <= j < tables@.len() ==> (#[trigger] tables@[j]).wf() && tables@[j]@ == cut_of(
                    w.take(m),
                    bs,
                    tg,
                ).done[j] && tables@[j].id_spec() == first_id + j && layout_encodable(
                    layout_of(tables@[j]@, bs),
                ),
            first_id + tables@.len() <= usize::MAX,
        decreases input.len() - i,
    {
        let ghost e = input[i];
        proof {
            assert(input.skip(i)[0] == e);
            lemma_live_take(input, i);
            lemma_live_take(input, i + 1);
        }
        if drop_tombstones && source.value().len() == 0 {
            assert(w.take(m) == written(input.take(i + 1), drop_tombstones));
        } else {
            let ghost before = cut_of(w.take(m), bs, tg);
            let ghost after = cut_of(w.take(m + 1), bs, tg);
            proof {
                if !drop_tombstones {
                    assert(w.take(m).len() == input.take(i).len());
                    assert(m == i);
                } else {
                    assert(live(input.take(i + 1)).len() == m + 1);
                    assert(w.take(m + 1) == w.take(m).push(e));
                    assert(w.take(m + 1)[m] == e);
                }
                assert(m < w.len() && w[m] == e);
                assert(fits(e));
                assert(w.take(m + 1).drop_last() =~= w.take(m));
                assert(w.take(m + 1).last() == e);
                assert(w.take(m + 1) =~= written(input.take(i + 1), drop_tombstones));
                assert(after == cut_add(before, e, bs, tg));
                lemma_cut(w.take(m), bs, tg);
                if before.cur.len() > 0 {
                    assert(w.take(m).last() == w[m - 1]);
                    assert(key_lt(w[m - 1].0, w[m].0));
                }
                assert(before.cur.push(e).drop_last() =~= before.cur);
                lemma_cut_prefix(w, m + 1, bs, tg);
                lemma_cut(w, bs, tg);
            }
            builder.add(source.key(), source.value());
            if builder.estimated_size() >= target {
                let ghost full_entries = builder@;
                assert(after.done =~= before.done.push(full_entries));
                assert(cut_tables(w, bs, tg)[tables@.len() as int] == full_entries) by {
                    assert(cut_of(w, bs, tg).done[tables@.len() as int]
                        == after.done[tables@.len() as int]);
                }
                let ghost all = cut_tables(w, bs, tg);
                let ghost at = tables@.len() as int;
                assert(at < all.len() && all[at] == full_entries);
                if next_id == usize::MAX {
                    return Err(LsmError::InvariantViolated);
                }
                let mut full = SsTableBuilder::new(block_size);
                std::mem::swap(&mut builder, &mut full);
                let table = match full.build(next_id) {
                    Ok(t) => t,
                    Err(e) => {
                        assert(!layout_encodable(layout_of(all[at], bs)));
                        return Err(e);
                    },
                };
                tables.push(Arc::new(table));
                next_id = next_id + 1;
                proof {
                    assert(builder@ =~= Seq::<Entry>::empty());
                }
            }
            proof {
                m = m + 1;
            }
        }
        match source.next() {
            Ok(()) => {},
            Err(e) => {
                return Err(e);
            },
        }
        proof {
            assert(input.skip(i).skip(1) =~= input.skip(i + 1));
            i = i + 1;
        }
    }
    proof {
        assert(input.take(i) =~= input);
        assert(w.take(m).len() == w.len());
        assert(w.take(m) =~= w);
        lemma_cut(w, bs, tg);
    }
    let ghost all = cut_tables(w, bs, tg);
    let ghost at = tables@.len() as int;
    if !builder.is_empty() {
        assert(all.len() == at + 1 && all[at] == builder@);
        if next_id == usize::MAX {
            return Err(LsmError::InvariantViolated);
        }
        let table = match builder.build(next_id) {
            Ok(t) => t,
            Err(e) => {
                assert(!layout_encodable(layout_of(all[at], bs)));
                return Err(e);
            },
        };
        tables.push(Arc::new(table));
    }
    proof {
        assert(tables@.len() == all.len());
        assert forall|j: int| 0 <= j < all.len() implies layout_encodable(
            layout_of(#[trigger] all[j], bs),
        ) by {
            assert(tables@[j]@ == all[j]);
        }
    }
    Ok(tables)
}

/// What a full compaction reads: the tables of level 0 merged, over the
/// tables of level 1 end to end. Where both hold a key, the entry of level
/// 0 is taken, be it a tombstone.
pub open spec fn merged_input(map: Map<usize, Arc<SsTable>>, l0: Seq<usize>, l1: Seq<usize>) -> Seq<
    Entry,
> {
    merge2(merge_n(id_runs(map, l0)), concat(id_runs(map, l1)))
}

/// What a full compaction reads is sorted, its keys and values fit their
/// fields, and for every key it holds what level 0 holds, else what level 1
/// holds. What it writes is sorted and fits too, and holds the same for
/// every key, but nothing in place of a tombstone that was dropped.
pub proof fn lemma_merged_input(
    map: Map<usize, Arc<SsTable>>,
    l0: Seq<usize>,
    l1: Seq<usize>,
    drop_tombstones: bool,
    k: Seq<u8>,
)
    requires
        ids_known(map, l0),
        ids_known(map, l1),
        blocks_ordered(id_runs(map, l1)),
    ensures
        sorted(merged_input(map, l0, l1)),
        each(merged_input(map, l0, l1), |e: Entry| fits(e)),
        lookup(merged_input(map, l0, l1), k) == or_else(
            first_hit(id_runs(map, l0), k),
            first_hit(id_runs(map, l1), k),
        ),
        sorted(written(merged_input(map, l0, l1), drop_tombstones)),
        each(written(merged_input(map, l0, l1), drop_tombstones), |e: Entry| fits(e)),
        lookup(written(merged_input(map, l0, l1), drop_tombstones), k) == if drop_tombstones {
            visible(lookup(merged_input(map, l0, l1), k))
        } else {
            lookup(merged_input(map, l0, l1), k)
        },
{
    let r0 = id_runs(map, l0);
    let r1 = id_runs(map, l1);
    let p = |e: Entry| fits(e);
    assert forall|j: int| 0 <= j < r0.len() implies sorted(#[trigger] r0[j]) && each(r0[j], p) by {
        map[l0[j]].lemma_wf();
    }
    assert forall|j: int| 0 <= j < r1.len() implies each(#[trigger] r1[j], p) by {
        map[l1[j]].lemma_wf();
    }
    let m0 = merge_n(r0);
    let c1 = concat(r1);
    lemma_merge_n_sorted(r0);
    lemma_merge_n_each(r0, p);
    lemma_concat_sorted(r1, 0);
    lemma_concat_each(r1, 0, p);
    lemma_merge2_sorted(m0, c1);
    lemma_merge2_each(m0, c1, p);
    lemma_lookup_merge2(m0, c1, k);
    lemma_lookup_merge_n(r0, k);
    lemma_first_hit_concat(r1, 0, k);
    assert(r1.skip(0) =~= r1);
    lemma_live_sorted(merge2(m0, c1));
    lemma_live_each(merge2(m0, c1), p);
    lemma_lookup_live(merge2(m0, c1), k);
}

/// What a compaction of a deeper level into the next reads: the tables of
/// the upper level end to end, over those of the lower level end to end.
/// Where both hold a key, the entry of the upper level is taken, be it a
/// tombstone.
pub open spec fn leveled_input(
    map: Map<usize, Arc<SsTable>>,
    upper: Seq<usize>,
    lower: Seq<usize>,
) -> Seq<Entry> {
    merge2(concat(id_runs(map, upper)), concat(id_runs(map, lower)))
}

/// What a compaction of a deeper level into the next reads is sorted, its
/// keys and values fit their fields, and for every key it holds what the
/// upper level holds, else what the lower level holds. What it writes is
/// sorted and fits too, and holds the same for every key, but nothing in
/// place of a tombstone that was dropped.
pub proof fn lemma_leveled_input(
    map: Map<usize, Arc<SsTable>>,
    upper: Seq<usize>,
    lower: Seq<usize>,
    drop_tombstones: bool,
    k: Seq<u8>,
)
    requires
        ids_known(map, upper),
        ids_known(map, lower),
        blocks_ordered(id_runs(map, upper)),
        blocks_ordered(id_runs(map, lower)),
    ensures
        sorted(leveled_input(map, upper, lower)),
        each(leveled_input(map, upper, lower), |e: Entry| fits(e)),
        lookup(leveled_input(map, upper, lower), k) == or_else(
            first_hit(id_runs(map, upper), k),
            first_hit(id_runs(map, lower), k),
        ),
        sorted(written(leveled_input(map, upper, lower), drop_tombstones)),
        each(written(leveled_input(map, upper, lower), drop_tombstones), |e: Entry| fits(e)),
        lookup(written(leveled_input(map, upper, lower), drop_tombstones), k)
            == if drop_tombstones {
            visible(lookup(leveled_input(map, upper, lower), k))
        } else {
            lookup(leveled_input(map, upper, lower), k)
        },
{
    let r0 = id_runs(map, upper);
    let r1 = id_runs(map, lower);
    let p = |e: Entry| fits(e);
    assert forall|j: int| 0 <= j < r0.len() implies each(#[trigger] r0[j], p) by {
        map[upper[j]].lemma_wf();
    }
    assert forall|j: int| 0 <= j < r1.len() implies each(#[trigger] r1[j], p) by {
        map[lower[j]].lemma_wf();
    }
    let c0 = concat(r0);
    let c1 = concat(r1);
    lemma_concat_sorted(r0, 0);
    lemma_concat_each(r0, 0, p);
    lemma_concat_sorted(r1, 0);
    lemma_concat_each(r1, 0, p);
    lemma_merge2_sorted(c0, c1);
    lemma_merge2_each(c0, c1, p);
    lemma_lookup_merge2(c0, c1, k);
    lemma_first_hit_concat(r0, 0, k);
    lemma_first_hit_concat(r1, 0, k);
    assert(r0.skip(0) =~= r0);
    assert(r1.skip(0) =~= r1);
    lemma_live_sorted(merge2(c0, c1));
    lemma_live_each(merge2(c0, c1), p);
    lemma_lookup_live(merge2(c0, c1), k);
}

impl CompactionTask {
    /// The identifiers of the tables merged from.
    pub open spec fn upper_ids(self) -> Seq<usize> {
        match self {
            CompactionTask::ForceFullCompaction { l0_sstables, .. } => l0_sstables@,
            CompactionTask::Simple(task) => task.upper_level_sst_ids@,
        }
    }

    /// The identifiers of the tables merged into.
    pub open spec fn lower_ids(self) -> Seq<usize> {
        match self {
            CompactionTask::ForceFullCompaction { l1_sstables, .. } => l1_sstables@,
            CompactionTask::Simple(task) => task.lower_level_sst_ids@,
        }
    }

    /// Whether the tables merged from are those of level 0, which may
    /// overlap.
    pub open spec fn from_level0(self) -> bool {
        match self {
            CompactionTask::ForceFullCompaction { .. } => true,
            CompactionTask::Simple(task) => task.upper_level is None,
        }
    }

    /// The tables that the task names are known, and those of a deeper
    /// level follow each other in key order.
    pub open spec fn readable(self, map: Map<usize, Arc<SsTable>>) -> bool {
        &&& ids_known(map, self.upper_ids())
        &&& ids_known(map, self.lower_ids())
        &&& blocks_ordered(id_runs(map, self.lower_ids()))
        &&& !self.from_level0() ==> blocks_ordered(id_runs(map, self.upper_ids()))
    }

    /// What the task reads: the tables merged from over the tables merged
    /// into.
    pub open spec fn input(self, map: Map<usize, Arc<SsTable>>) -> Seq<Entry> {
        if self.from_level0() {
            merged_input(map, self.upper_ids(), self.lower_ids())
        } else {
            leveled_input(map, self.upper_ids(), self.lower_ids())
        }
    }

    /// The identifiers of the tables merged from.
    fn upper(&self) -> (r: &Vec<usize>)
        ensures
            r@ == self.upper_ids(),
    {
        match self {
            CompactionTask::ForceFullCompaction { l0_sstables, .. } => l0_sstables,
            CompactionTask::Simple(task) => &task.upper_level_sst_ids,
        }
    }

    /// The identifiers of the tables merged into.
    fn lower(&self) -> (r: &Vec<usize>)
        ensures
            r@ == self.lower_ids(),
    {
        match self {
            CompactionTask::ForceFullCompaction { l1_sstables, .. } => l1_sstables,
            CompactionTask::Simple(task) => &task.lower_level_sst_ids,
        }
    }

    /// Tells whether the tables merged from are those of level 0.
    fn is_from_level0(&self) -> (r: bool)
        ensures
            r == self.from_level0(),
    {
        match self {
            CompactionTask::ForceFullCompaction { .. } => true,
            CompactionTask::Simple(task) => task.upper_level.is_none(),
        }
    }
}

/// The tables with the given identifiers.
fn collect_tables(map: &HashMap<usize, Arc<SsTable>>, ids: &Vec<usize>) -> (r: Vec<Arc<SsTable>>)
    requires
        ids_known(map@, ids@),
    ensures
        tables_wf(r@),
        tables_view(r@) == id_runs(map@, ids@),
{
    let n: usize = ids.len();
    let mut tables: Vec<Arc<SsTable>> = Vec::new();
    let mut i: usize = 0;
    while i < n
        invariant
            0 <= i <= n,
            n == ids@.len(),
            ids_known(map@, ids@),
            tables@.len() == i,
            forall|j: int| 0 <= j < i ==> #[trigger] tables@[j] == map@[ids@[j]],
        decreases n - i,
    {
        assert(map@.contains_key(ids@[i as int]));
        match map.get(&ids[i]) {
            Some(t) => {
                tables.push(share(t));
            },
            None => {
                assert(false);
            },
        }
        i = i + 1;
    }
    assert(tables_view(tables@) =~= id_runs(map@, ids@));
    tables
}

/// An iterator at the first entry of each of the tables.
fn first_iters(tables: &Vec<Arc<SsTable>>) -> (r: Result<Vec<SsTableIterator>, LsmError>)
    requires
        tables_wf(tables@),
    ensures
        r matches Ok(iters) && all_wf(iters@) && runs_of(iters@) == tables_view(tables@),
{
    let n: usize = tables.len();
    let mut iters: Vec<SsTableIterator> = Vec::new();
    let mut i: usize = 0;
    while i < n
        invariant
            0 <= i <= n,
            n == tables@.len(),
            tables_wf(tables@),
            all_wf(iters@),
            iters@.len() == i,
            forall|j: int| 0 <= j < i ==> (#[trigger] iters@[j]).remaining() == tables@[j]@,
        decreases n - i,
    {
        assert(tables@[i as int].wf());
        let iter = match SsTableIterator::create_and_seek_to_first(share(&tables[i])) {
            Ok(it) => it,
            Err(e) => {
                return Err(e);
            },
        };
        iters.push(iter);
        i = i + 1;
    }
    assert(runs_of(iters@) =~= tables_view(tables@));
    Ok(iters)
}

impl LsmStorageInner {
    /// Whether a full compaction drops the tombstones: whether level 1 is
    /// the deepest level, so that no older entry can lie below a tombstone.
    pub open spec fn drops_tombstones(&self) -> bool {
        self.state.levels@.len() == 1
    }

    /// Whether the task drops the tombstones: whether it writes to the
    /// deepest level.
    pub open spec fn task_drops(&self, task: CompactionTask) -> bool {
        match task {
            CompactionTask::ForceFullCompaction { .. } => self.drops_tombstones(),
            CompactionTask::Simple(t) => t.is_lower_level_bottom_level,
        }
    }

    /// Merges the tables that a task names into new tables, which get the
    /// next identifiers. The tombstones are dropped where the task writes to
    /// the deepest level. The state is left as it is: the new tables are
    /// handed back.
    #[verifier::rlimit(40)]
    pub fn compact(&mut self, task: &CompactionTask) -> (r: Result<Vec<Arc<SsTable>>, LsmError>)
        requires
            old(self).wf(),
            task.readable(old(self).state.sstables@),
        ensures
            final(self).wf(),
            final(self).state == old(self).state,
            final(self).options == old(self).options,
            final(self).compaction_controller == old(self).compaction_controller,
            ({
                let tables = cut_tables(
                    written(task.input(old(self).state.sstables@), old(self).task_drops(*task)),
                    old(self).options.block_size as int,
                    old(self).options.target_sst_size as int,
                );
                &&& r is Ok <==> all_encodable(tables, old(self).options.block_size as int) && old(
                    self,
                ).next_id() + tables.len() <= usize::MAX
                &&& r matches Ok(v) ==> {
                    &&& v@.len() == tables.len()
                    &&& final(self).next_id() == old(self).next_id() + tables.len()
                    &&& forall|j: int|
                        0 <= j < v@.len() ==> (#[trigger] v@[j]).wf() && v@[j]@ == tables[j]
                            && v@[j].id_spec() == old(self).next_id() + j
                }
            }),
            r matches Err(e) ==> e == LsmError::InvariantViolated && final(self).next_id() == old(
                self,
            ).next_id(),
    {
        let drop_tombstones: bool = match task {
            CompactionTask::ForceFullCompaction { .. } => self.state.levels.len() == 1,
            CompactionTask::Simple(t) => t.is_lower_level_bottom_level,
        };
        let upper_tables = collect_tables(&self.state.sstables, task.upper());
        let lower_tables = collect_tables(&self.state.sstables, task.lower());
        let lower_iter = match SstConcatIterator::create_and_seek_to_first(lower_tables) {
            Ok(it) => it,
            Err(e) => {
                return Err(LsmError::InvariantViolated);
            },
        };
        let first_id: usize = self.next_sst_id;
        let made = if task.is_from_level0() {
            let upper_iters = match first_iters(&upper_tables) {
                Ok(iters) => iters,
                Err(e) => {
                    return Err(LsmError::InvariantViolated);
                },
            };
            let upper_iter = MergeIterator::create(upper_iters);
            let iter = match TwoMergeIterator::create(upper_iter, lower_iter) {
                Ok(it) => it,
                Err(e) => {
                    return Err(LsmError::InvariantViolated);
                },
            };
            proof {
                lemma_merged_input(
                    self.state.sstables@,
                    task.upper_ids(),
                    task.lower_ids(),
                    false,
                    Seq::empty(),
                );
            }
            drain_into_tables(
                iter,
                self.options.block_size,
                self.options.target_sst_size,
                first_id,
                drop_tombstones,
            )
        } else {
            let upper_iter = match SstConcatIterator::create_and_seek_to_first(upper_tables) {
                Ok(it) => it,
                Err(e) => {
                    return Err(LsmError::InvariantViolated);
                },
            };
            let iter = match TwoMergeIterator::create(upper_iter, lower_iter) {
                Ok(it) => it,
                Err(e) => {
                    return Err(LsmError::InvariantViolated);
                },
            };
            proof {
                lemma_leveled_input(
                    self.state.sstables@,
                    task.upper_ids(),
                    task.lower_ids(),
                    false,
                    Seq::empty(),
                );
            }
            drain_into_tables(
                iter,
                self.options.block_size,
                self.options.target_sst_size,
                first_id,
                drop_tombstones,
            )
        };
        match made {
            Ok(tables) => {
                self.next_sst_id = first_id + tables.len();
                Ok(tables)
            },
            Err(e) => Err(e),
        }
    }
}

/// Takes the tables with the given identifiers out of the map.
fn remove_tables(map: &mut HashMap<usize, Arc<SsTable>>, ids: &Vec<usize>)
    ensures
        forall|x: usize|
            #[trigger] final(map)@.contains_key(x) <==> old(map)@.contains_key(x) && !ids@.contains(
                x,
            ),
        forall|x: usize|
            final(map)@.contains_key(x) ==> #[trigger] final(map)@[x] == old(map)@[x],
{
    let n: usize = ids.len();
    let mut i: usize = 0;
    while i < n
        invariant
            0 <= i <= n,
            n == ids@.len(),
            forall|x: usize|
                #[trigger] map@.contains_key(x) <==> old(map)@.contains_key(x) && !ids@.take(
                    i as int,
                ).contains(x),
            forall|x: usize| map@.contains_key(x) ==> #[trigger] map@[x] == old(map)@[x],
        decreases n - i,
    {
        let ghost before = map@;
        let id: usize = ids[i];
        map.remove(&id);
        proof {
            assert(map@ == before.remove(id));
            let next = ids@.take(i + 1);
            assert(next =~= ids@.take(i as int).push(id));
            assert forall|x: usize|
                #[trigger] map@.contains_key(x) <==> old(map)@.contains_key(x) && !next.contains(
                    x,
                ) by {
                if ids@.take(i as int).contains(x) {
                    let j = choose|j: int| 0 <= j < i && ids@.take(i as int)[j] == x;
                    assert(next[j] == x);
                }
                if next.contains(x) && x != id {
                    let j = choose|j: int| 0 <= j < next.len() && next[j] == x;
                    assert(ids@.take(i as int)[j] == x);
                }
                assert(next[i as int] == id);
            }
        }
        i = i + 1;
    }
    assert(ids@.take(n as int) =~= ids@);
}

/// Puts the tables into the map under their identifiers, which follow each
/// other from `first` on, and gives the identifiers.
fn insert_tables(map: &mut HashMap<usize, Arc<SsTable>>, tables: &Vec<Arc<SsTable>>, first: usize) -> (r:
    Vec<usize>)
    requires
        first + tables@.len() <= usize::MAX,
        forall|j: int| 0 <= j < tables@.len() ==> (#[trigger] tables@[j]).id_spec() == first + j,
    ensures
        r@.len() == tables@.len(),
        forall|j: int| 0 <= j < r@.len() ==> #[trigger] r@[j] == first + j,
        forall|x: usize|
            #[trigger] final(map)@.contains_key(x) <==> old(map)@.contains_key(x) || (first <= x
                < first + tables@.len()),
        forall|x: usize|
            first <= x < first + tables@.len() ==> #[trigger] final(map)@[x] == tables@[x - first],
        forall|x: usize|
            old(map)@.contains_key(x) && !(first <= x < first + tables@.len())
                ==> #[trigger] final(map)@[x] == old(map)@[x],
{
    let n: usize = tables.len();
    let mut ids: Vec<usize> = Vec::new();
    let mut i: usize = 0;
    while i < n
        invariant
            0 <= i <= n,
            n == tables@.len(),
            first + n <= usize::MAX,
            forall|j: int| 0 <= j < tables@.len() ==> (#[trigger] tables@[j]).id_spec() == first + j,
            ids@.len() == i,
            forall|j: int| 0 <= j < i ==> #[trigger] ids@[j] == first + j,
            forall|x: usize|
                #[trigger] map@.contains_key(x) <==> old(map)@.contains_key(x) || (first <= x
                    < first + i),
            forall|x: usize| first <= x < first + i ==> #[trigger] map@[x] == tables@[x - first],
            forall|x: usize|
                old(map)@.contains_key(x) && !(first <= x < first + i) ==> #[trigger] map@[x]
                    == old(map)@[x],
        decreases n - i,
    {
        let id: usize = first + i;
        map.insert(id, share(&tables[i]));
        ids.push(id);
        i = i + 1;
    }
    ids
}

/// After level 0 and level 1 are replaced by the tables that their merge is
/// cut into, without the tombstones where level 1 is the deepest level, a
/// read gives for every key what it gave before.
pub proof fn lemma_compaction_preserves(
    old: LsmStorageState,
    new: LsmStorageState,
    block_size: int,
    target: int,
    k: Seq<u8>,
)
    requires
        old.wf(),
        old.levels@.len() >= 1,
        new.levels@.len() == old.levels@.len(),
        new.mem_runs() == old.mem_runs(),
        new.l0_sstables@.len() == 0,
        id_runs(new.sstables@, new.levels@[0].1@) == cut_tables(
            written(
                merged_input(old.sstables@, old.l0_sstables@, old.levels@[0].1@),
                old.levels@.len() == 1,
            ),
            block_size,
            target,
        ),
        forall|i: int|
            1 <= i < old.levels@.len() ==> (#[trigger] new.levels@[i]) == old.levels@[i] && id_runs(
                new.sstables@,
                old.levels@[i].1@,
            ) == id_runs(old.sstables@, old.levels@[i].1@),
    ensures
        new.get_spec(k) == old.get_spec(k),
{
    let drop = old.levels@.len() == 1;
    let input = written(merged_input(old.sstables@, old.l0_sstables@, old.levels@[0].1@), drop);
    let tables = cut_tables(input, block_size, target);
    assert(ids_known(old.sstables@, old.levels@[0].1@) && blocks_ordered(
        id_runs(old.sstables@, old.levels@[0].1@),
    ));
    lemma_merged_input(old.sstables@, old.l0_sstables@, old.levels@[0].1@, drop, k);
    lemma_cut(input, block_size, target);
    lemma_first_hit_concat(tables, 0, k);
    assert(tables.skip(0) =~= tables);
    assert(new.l0_runs() =~= Seq::<Seq<Entry>>::empty());
    lemma_level_hit_tail(new.sstables@, new.levels@, old.sstables@, old.levels@, 1, k);
}

/// What the levels from `from` on hold for a key is the same in two states
/// whose levels from there on hold the same tables.
proof fn lemma_level_hit_tail(
    map1: Map<usize, Arc<SsTable>>,
    levels1: Seq<(usize, Vec<usize>)>,
    map2: Map<usize, Arc<SsTable>>,
    levels2: Seq<(usize, Vec<usize>)>,
    from: int,
    k: Seq<u8>,
)
    requires
        0 <= from,
        levels1.len() == levels2.len(),
        forall|i: int|
            from <= i < levels2.len() ==> (#[trigger] levels1[i]) == levels2[i] && id_runs(
                map1,
                levels2[i].1@,
            ) == id_runs(map2, levels2[i].1@),
    ensures
        level_hit(map1, levels1, from, k) == level_hit(map2, levels2, from, k),
    decreases levels2.len() - from,
{
    if from < levels2.len() {
        assert(levels1[from] == levels2[from]);
        lemma_level_hit_tail(map1, levels1, map2, levels2, from + 1, k);
    }
}

/// After a full compaction has put new tables with fresh identifiers in
/// place of those of level 0 and level 1, the state is well formed.
#[verifier::rlimit(40)]
pub proof fn lemma_state_after_compaction(
    old: LsmStorageState,
    new: LsmStorageState,
    first: usize,
    tables: Seq<Arc<SsTable>>,
)
    requires
        old.wf(),
        old.levels@.len() >= 1,
        forall|id: usize| #[trigger] old.referenced(id) ==> id < first,
        first + tables.len() <= usize::MAX,
        forall|j: int|
            0 <= j < tables.len() ==> (#[trigger] tables[j]).wf() && tables[j].id_spec() == first
                + j,
        blocks_ordered(tables_view(tables)),
        new.memtable == old.memtable,
        new.imm_memtables == old.imm_memtables,
        new.l0_sstables@.len() == 0,
        new.levels@.len() == old.levels@.len(),
        new.levels@[0].1@.len() == tables.len(),
        forall|j: int| 0 <= j < tables.len() ==> #[trigger] new.levels@[0].1@[j] == first + j,
        forall|i: int| 1 <= i < old.levels@.len() ==> #[trigger] new.levels@[i] == old.levels@[i],
        forall|x: usize|
            #[trigger] new.sstables@.contains_key(x) <==> (old.sstables@.contains_key(x)
                && !old.l0_sstables@.contains(x) && !old.levels@[0].1@.contains(x)) || (first <= x
                < first + tables.len()),
        forall|x: usize|
            first <= x < first + tables.len() ==> #[trigger] new.sstables@[x] == tables[x - first],
        forall|x: usize|
            new.sstables@.contains_key(x) && !(first <= x < first + tables.len())
                ==> #[trigger] new.sstables@[x] == old.sstables@[x],
    ensures
        new.wf(),
        new.mem_runs() == old.mem_runs(),
        id_runs(new.sstables@, new.levels@[0].1@) == tables_view(tables),
        forall|i: int|
            1 <= i < old.levels@.len() ==> id_runs(new.sstables@, (#[trigger] old.levels@[i]).1@)
                == id_runs(old.sstables@, old.levels@[i].1@),
        forall|id: usize|
            #[trigger] new.referenced(id) ==> id < first + tables.len() && (first <= id
                || old.referenced(id)),
{
    let m = tables.len() as int;
    let new_ids = new.levels@[0].1@;
    // the new level 1
    assert(id_runs(new.sstables@, new_ids) =~= tables_view(tables));
    assert(ids_known(new.sstables@, new_ids)) by {
        assert forall|j: int| 0 <= j < new_ids.len() implies new.sstables@.contains_key(
            #[trigger] new_ids[j],
        ) && new.sstables@[new_ids[j]].wf() && new.sstables@[new_ids[j]].id_spec()
            == new_ids[j] by {
            let x = new_ids[j];
            assert(x == first + j);
            assert(first <= x < first + tables.len());
            assert(new.sstables@.contains_key(x));
            assert(new.sstables@[x] == tables[x - first]);
            assert(tables[j].wf() && tables[j].id_spec() == first + j);
        }
    }
    // the deeper levels hold what they held
    assert forall|i: int| 1 <= i < old.levels@.len() implies ids_known(
        new.sstables@,
        (#[trigger] old.levels@[i]).1@,
    ) && id_runs(new.sstables@, old.levels@[i].1@) == id_runs(old.sstables@, old.levels@[i].1@) by {
        let ids = old.levels@[i].1@;
        assert(ids_known(old.sstables@, ids));
        assert forall|j: int| 0 <= j < ids.len() implies new.sstables@.contains_key(
            #[trigger] ids[j],
        ) && new.sstables@[ids[j]] == old.sstables@[ids[j]] by {
            let x = ids[j];
            assert(old.levels@[i].1@.contains(x));
            assert(in_levels(old.levels@, x));
            assert(old.referenced(x));
            assert(!old.levels@[0].1@.contains(x));
            assert(!old.l0_sstables@.contains(x));
        }
        assert(id_runs(new.sstables@, ids) =~= id_runs(old.sstables@, ids));
    }
    assert forall|i: int| 0 <= i < new.levels@.len() implies ids_known(
        new.sstables@,
        (#[trigger] new.levels@[i]).1@,
    ) && blocks_ordered(id_runs(new.sstables@, new.levels@[i].1@)) by {
        if i >= 1 {
            assert(new.levels@[i] == old.levels@[i]);
            assert(blocks_ordered(id_runs(old.sstables@, old.levels@[i].1@)));
        }
    }
    // what is referenced
    assert forall|id: usize| #[trigger] new.referenced(id) implies id < first + m && (first <= id
        || (old.referenced(id) && !old.l0_sstables@.contains(id) && !old.levels@[0].1@.contains(
        id,
    ))) by {
        assert(!new.l0_sstables@.contains(id));
        let i = choose|i: int| 0 <= i < new.levels@.len() && (#[trigger] new.levels@[i]).1@.contains(id);
        if i == 0 {
            let j = choose|j: int| 0 <= j < new_ids.len() && new_ids[j] == id;
            assert(new_ids[j] == first + j);
        } else {
            assert(new.levels@[i] == old.levels@[i]);
            assert(old.levels@[i].1@.contains(id));
            assert(in_levels(old.levels@, id));
            assert(old.referenced(id));
        }
    }
    assert forall|x: usize| new.sstables@.contains_key(x) implies #[trigger] new.referenced(x) by {
        if first <= x < first + m {
            assert(new_ids[x - first] == x);
            assert(new.levels@[0].1@.contains(x));
        } else {
            assert(old.referenced(x));
            let i = choose|i: int| 0 <= i < old.levels@.len() && (#[trigger] old.levels@[i]).1@.contains(x);
            assert(new.levels@[i] == old.levels@[i]);
            assert(new.levels@[i].1@.contains(x));
        }
    }
    assert forall|id: usize, i: int, j: int|
        #![trigger new.levels@[i].1@.contains(id), new.levels@[j].1@.contains(id)]
        0 <= i < j < new.levels@.len() && new.levels@[i].1@.contains(id) implies !new.levels@[j].1@.contains(
        id,
    ) by {
        assert(new.levels@[j] == old.levels@[j]);
        if new.levels@[j].1@.contains(id) {
            assert(in_levels(old.levels@, id));
            assert(old.referenced(id));
            if i == 0 {
                let x = choose|x: int| 0 <= x < new_ids.len() && new_ids[x] == id;
                assert(new_ids[x] == first + x);
            } else {
                assert(new.levels@[i] == old.levels@[i]);
            }
        }
    }
    assert(new.mem_runs() =~= old.mem_runs());
}

impl LsmStorageInner {
    /// What a full compaction does: `after` and `r` are what it leaves of
    /// this engine and what it gives back. The merge of level 0 and level 1,
    /// without the tombstones where level 1 is the deepest level, is cut
    /// into tables, which become level 1 under the next identifiers; level 0
    /// is left empty, and the identifiers of the merged tables are given
    /// back. A read gives for every key what it gave before. Where a new
    /// table cannot be encoded, or the identifiers are used up, nothing
    /// changes.
    pub open spec fn fully_compacted(self, after: Self, r: Result<Vec<usize>, LsmError>) -> bool {
        let st = self.state;
        let tables = cut_tables(
            written(
                merged_input(st.sstables@, st.l0_sstables@, st.levels@[0].1@),
                self.drops_tombstones(),
            ),
            self.options.block_size as int,
            self.options.target_sst_size as int,
        );
        &&& r is Ok <==> all_encodable(tables, self.options.block_size as int) && self.next_id()
            + tables.len() <= usize::MAX
        &&& r matches Ok(obsolete) ==> {
            &&& obsolete@ == st.l0_sstables@ + st.levels@[0].1@
            &&& after.state.memtable == st.memtable
            &&& after.state.imm_memtables == st.imm_memtables
            &&& after.state.l0_sstables@.len() == 0
            &&& after.state.levels@.len() == st.levels@.len()
            &&& after.state.levels@[0].0 == st.levels@[0].0
            &&& after.state.levels@[0].1@.len() == tables.len()
            &&& forall|j: int|
                0 <= j < tables.len() ==> #[trigger] after.state.levels@[0].1@[j] == self.next_id()
                    + j
            &&& forall|i: int|
                1 <= i < st.levels@.len() ==> #[trigger] after.state.levels@[i] == st.levels@[i]
            &&& id_runs(after.state.sstables@, after.state.levels@[0].1@) == tables
            &&& after.next_id() == self.next_id() + tables.len()
            &&& after.options == self.options
            &&& after.compaction_controller == self.compaction_controller
            &&& forall|k: Seq<u8>| after.state.get_spec(k) == st.get_spec(k)
        }
        &&& r matches Err(e) ==> e == LsmError::InvariantViolated && after == self
    }

    /// The task that the strategy of this engine asks for, if any.
    pub open spec fn pending_task(&self) -> Option<crate::compact::simple_leveled::TaskView> {
        match self.compaction_controller {
            CompactionController::Simple(ctrl) => ctrl.task_spec(self.state),
            CompactionController::NoCompaction => None,
        }
    }

    /// Merges all tables of level 0 and level 1 into new tables of level 1,
    /// without the tombstones where level 1 is the deepest level, and gives
    /// the identifiers of the tables that are no longer needed. Every key
    /// reads as before.
    #[verifier::rlimit(40)]
    pub fn force_full_compaction(&mut self) -> (r: Result<Vec<usize>, LsmError>)
        requires
            old(self).wf(),
        ensures
            final(self).wf(),
            old(self).fully_compacted(*final(self), r),
    {
        let ghost ost = old(self).state;
        let ghost bs = self.options.block_size as int;
        let ghost tg = self.options.target_sst_size as int;
        let ghost drop = ost.levels@.len() == 1;
        let ghost input = written(
            merged_input(ost.sstables@, ost.l0_sstables@, ost.levels@[0].1@),
            drop,
        );
        let ghost cut = cut_tables(input, bs, tg);
        let l0_ids = copy_ids(self.state.l0_sstables.as_slice());
        let l1_ids = copy_ids(self.state.levels[0].1.as_slice());
        let task = CompactionTask::ForceFullCompaction {
            l0_sstables: copy_ids(l0_ids.as_slice()),
            l1_sstables: copy_ids(l1_ids.as_slice()),
        };
        let first: usize = self.next_sst_id;
        assert(ids_known(ost.sstables@, ost.levels@[0].1@) && blocks_ordered(
            id_runs(ost.sstables@, ost.levels@[0].1@),
        ));
        let new_ssts = match self.compact(&task) {
            Ok(t) => t,
            Err(e) => {
                return Err(e);
            },
        };
        remove_tables(&mut self.state.sstables, &l0_ids);
        let ghost map1 = self.state.sstables@;
        remove_tables(&mut self.state.sstables, &l1_ids);
        let ghost map2 = self.state.sstables@;
        self.state.l0_sstables = remove_ids(
            self.state.l0_sstables.as_slice(),
            l0_ids.as_slice(),
        );
        let new_ids = insert_tables(&mut self.state.sstables, &new_ssts, first);
        let level: usize = self.state.levels[0].0;
        self.state.levels.set(0, (level, new_ids));
        let mut obsolete = l0_ids;
        let mut i: usize = 0;
        while i < l1_ids.len()
            invariant
                0 <= i <= l1_ids@.len(),
                obsolete@ == ost.l0_sstables@ + l1_ids@.subrange(0, i as int),
            decreases l1_ids@.len() - i,
        {
            obsolete.push(l1_ids[i]);
            assert(l1_ids@.subrange(0, i + 1) =~= l1_ids@.subrange(0, i as int).push(
                l1_ids@[i as int],
            ));
            i = i + 1;
        }
        proof {
            assert(l1_ids@.subrange(0, l1_ids@.len() as int) =~= l1_ids@);
            let st = self.state;
            // level 0 is empty
            lemma_without(ost.l0_sstables@, ost.l0_sstables@);
            if st.l0_sstables@.len() > 0 {
                assert(st.l0_sstables@.contains(st.l0_sstables@[0]));
            }
            // the new tables follow each other in key order
            lemma_merged_input(
                ost.sstables@,
                ost.l0_sstables@,
                ost.levels@[0].1@,
                drop,
                Seq::empty(),
            );
            lemma_cut(input, bs, tg);
            lemma_chunks_ordered(cut, 0);
            assert(tables_view(new_ssts@) =~= cut);
            let m = new_ssts@.len();
            assert forall|x: usize|
                #[trigger] st.sstables@.contains_key(x) <==> (ost.sstables@.contains_key(x)
                    && !ost.l0_sstables@.contains(x) && !ost.levels@[0].1@.contains(x)) || (first
                    <= x < first + m) by {
                assert(map1.contains_key(x) <==> ost.sstables@.contains_key(x)
                    && !ost.l0_sstables@.contains(x));
                assert(map2.contains_key(x) <==> map1.contains_key(x) && !l1_ids@.contains(x));
                assert(st.sstables@.contains_key(x) <==> map2.contains_key(x) || first <= x < first
                    + m);
            }
            assert forall|x: usize|
                st.sstables@.contains_key(x) && !(first <= x < first + m) implies #[trigger] st.sstables@[x]
                    == ost.sstables@[x] by {
                if st.sstables@.contains_key(x) {
                    assert(map2.contains_key(x));
                    assert(map1.contains_key(x));
                    assert(st.sstables@[x] == map2[x]);
                    assert(map2[x] == map1[x]);
                    assert(map1[x] == ost.sstables@[x]);
                }
            }
            lemma_state_after_compaction(ost, st, first, new_ssts@);
            assert forall|k: Seq<u8>| st.get_spec(k) == ost.get_spec(k) by {
                lemma_compaction_preserves(ost, st, bs, tg, k);
            }
        }
        Ok(obsolete)
    }
}

/// Every level but `upper` and the next holds in `new` the tables that it
/// holds in `old`.
pub open spec fn others_kept(old: LsmStorageState, new: LsmStorageState, upper: int) -> bool {
    forall|i: int|
        #![trigger old.levels@[i]]
        0 <= i < old.levels@.len() && i != upper && i != upper + 1 ==> new.levels@[i]
            == old.levels@[i] && id_runs(new.sstables@, old.levels@[i].1@) == id_runs(
            old.sstables@,
            old.levels@[i].1@,
        )
}

/// What the levels from `from` on hold for a key after a level has been
/// merged into the next is what they held before, or nothing in place of a
/// tombstone that was dropped.
proof fn lemma_level_hit_after(
    old: LsmStorageState,
    new: LsmStorageState,
    upper: int,
    block_size: int,
    target: int,
    drop_tombstones: bool,
    from: int,
    k: Seq<u8>,
)
    requires
        old.wf(),
        0 <= from <= upper,
        upper + 1 < old.levels@.len(),
        drop_tombstones ==> upper + 2 == old.levels@.len(),
        new.levels@.len() == old.levels@.len(),
        new.levels@[upper].1@.len() == 0,
        id_runs(new.sstables@, new.levels@[upper + 1].1@) == cut_tables(
            written(
                leveled_input(old.sstables@, old.levels@[upper].1@, old.levels@[upper + 1].1@),
                drop_tombstones,
            ),
            block_size,
            target,
        ),
        others_kept(old, new, upper),
    ensures
        level_hit(new.sstables@, new.levels@, from, k) == level_hit(
            old.sstables@,
            old.levels@,
            from,
            k,
        ) || (level_hit(new.sstables@, new.levels@, from, k) is None && visible(
            level_hit(old.sstables@, old.levels@, from, k),
        ) is None),
    decreases upper - from,
{
    if from < upper {
        assert(new.levels@[from] == old.levels@[from] && id_runs(
            new.sstables@,
            old.levels@[from].1@,
        ) == id_runs(old.sstables@, old.levels@[from].1@));
        lemma_level_hit_after(old, new, upper, block_size, target, drop_tombstones, from + 1, k);
        let here = first_hit(id_runs(old.sstables@, old.levels@[from].1@), k);
        assert(level_hit(old.sstables@, old.levels@, from, k) == or_else(
            here,
            level_hit(old.sstables@, old.levels@, from + 1, k),
        ));
        assert(level_hit(new.sstables@, new.levels@, from, k) == or_else(
            here,
            level_hit(new.sstables@, new.levels@, from + 1, k),
        ));
    } else {
        let lower = upper + 1;
        let input = written(
            leveled_input(old.sstables@, old.levels@[upper].1@, old.levels@[lower].1@),
            drop_tombstones,
        );
        let tables = cut_tables(input, block_size, target);
        assert(ids_known(old.sstables@, old.levels@[upper].1@) && blocks_ordered(
            id_runs(old.sstables@, old.levels@[upper].1@),
        ));
        assert(ids_known(old.sstables@, old.levels@[lower].1@) && blocks_ordered(
            id_runs(old.sstables@, old.levels@[lower].1@),
        ));
        lemma_leveled_input(
            old.sstables@,
            old.levels@[upper].1@,
            old.levels@[lower].1@,
            drop_tombstones,
            k,
        );
        lemma_cut(input, block_size, target);
        lemma_first_hit_concat(tables, 0, k);
        assert(tables.skip(0) =~= tables);
        assert(id_runs(new.sstables@, new.levels@[upper].1@) =~= Seq::<Seq<Entry>>::empty());
        assert forall|i: int| lower + 1 <= i < old.levels@.len() implies (
        #[trigger] new.levels@[i]) == old.levels@[i] && id_runs(new.sstables@, old.levels@[i].1@)
            == id_runs(old.sstables@, old.levels@[i].1@) by {
            assert(old.levels@[i] == old.levels@[i]);
        }
        lemma_level_hit_tail(new.sstables@, new.levels@, old.sstables@, old.levels@, lower + 1, k);
        // the level merged from, then the level merged into
        let upper_hit = first_hit(id_runs(old.sstables@, old.levels@[upper].1@), k);
        let lower_hit = first_hit(id_runs(old.sstables@, old.levels@[lower].1@), k);
        let rest = level_hit(old.sstables@, old.levels@, lower + 1, k);
        assert(level_hit(new.sstables@, new.levels@, lower + 1, k) == rest);
        assert(drop_tombstones ==> rest is None);
        assert(level_hit(old.sstables@, old.levels@, lower, k) == or_else(lower_hit, rest));
        assert(level_hit(old.sstables@, old.levels@, upper, k) == or_else(
            upper_hit,
            or_else(lower_hit, rest),
        ));
        assert(first_hit(id_runs(new.sstables@, new.levels@[upper].1@), k) is None);
        assert(level_hit(new.sstables@, new.levels@, lower, k) == or_else(
            lookup(input, k),
            rest,
        ));
        assert(level_hit(new.sstables@, new.levels@, upper, k) == level_hit(
            new.sstables@,
            new.levels@,
            lower,
            k,
        ));
    }
}

/// After a level and the next are replaced by the tables that their merge
/// is cut into, without the tombstones where the lower is the deepest
/// level, a read gives for every key what it gave before.
pub proof fn lemma_level_compaction_preserves(
    old: LsmStorageState,
    new: LsmStorageState,
    upper: int,
    block_size: int,
    target: int,
    drop_tombstones: bool,
    k: Seq<u8>,
)
    requires
        old.wf(),
        0 <= upper,
        upper + 1 < old.levels@.len(),
        drop_tombstones ==> upper + 2 == old.levels@.len(),
        new.mem_runs() == old.mem_runs(),
        new.l0_runs() == old.l0_runs(),
        new.levels@.len() == old.levels@.len(),
        new.levels@[upper].1@.len() == 0,
        id_runs(new.sstables@, new.levels@[upper + 1].1@) == cut_tables(
            written(
                leveled_input(old.sstables@, old.levels@[upper].1@, old.levels@[upper + 1].1@),
                drop_tombstones,
            ),
            block_size,
            target,
        ),
        others_kept(old, new, upper),
    ensures
        new.get_spec(k) == old.get_spec(k),
{
    lemma_level_hit_after(old, new, upper, block_size, target, drop_tombstones, 0, k);
}

/// After a compaction has put new tables with fresh identifiers in place
/// of those of a level and the next, the state is well formed.
#[verifier::rlimit(60)]
pub proof fn lemma_state_after_level_compaction(
    old: LsmStorageState,
    new: LsmStorageState,
    upper: int,
    first: usize,
    tables: Seq<Arc<SsTable>>,
)
    requires
        old.wf(),
        0 <= upper,
        upper + 1 < old.levels@.len(),
        forall|id: usize| #[trigger] old.referenced(id) ==> id < first,
        first + tables.len() <= usize::MAX,
        forall|j: int|
            0 <= j < tables.len() ==> (#[trigger] tables[j]).wf() && tables[j].id_spec() == first
                + j,
        blocks_ordered(tables_view(tables)),
        new.memtable == old.memtable,
        new.imm_memtables == old.imm_memtables,
        new.l0_sstables == old.l0_sstables,
        new.levels@.len() == old.levels@.len(),
        new.levels@[upper].1@.len() == 0,
        new.levels@[upper + 1].1@.len() == tables.len(),
        forall|j: int|
            0 <= j < tables.len() ==> #[trigger] new.levels@[upper + 1].1@[j] == first + j,
        forall|i: int|
            0 <= i < old.levels@.len() && i != upper && i != upper + 1
                ==> #[trigger] new.levels@[i] == old.levels@[i],
        forall|x: usize|
            #[trigger] new.sstables@.contains_key(x) <==> (old.sstables@.contains_key(x)
                && !old.levels@[upper].1@.contains(x) && !old.levels@[upper + 1].1@.contains(x))
                || (first <= x < first + tables.len()),
        forall|x: usize|
            first <= x < first + tables.len() ==> #[trigger] new.sstables@[x] == tables[x - first],
        forall|x: usize|
            new.sstables@.contains_key(x) && !(first <= x < first + tables.len())
                ==> #[trigger] new.sstables@[x] == old.sstables@[x],
    ensures
        new.wf(),
        new.mem_runs() == old.mem_runs(),
        new.l0_runs() == old.l0_runs(),
        id_runs(new.sstables@, new.levels@[upper + 1].1@) == tables_view(tables),
        others_kept(old, new, upper),
        forall|id: usize|
            #[trigger] new.referenced(id) ==> id < first + tables.len() && (first <= id
                || old.referenced(id)),
{
    let m = tables.len() as int;
    let lower = upper + 1;
    let new_ids = new.levels@[lower].1@;
    // the level merged into
    assert(id_runs(new.sstables@, new_ids) =~= tables_view(tables));
    assert(ids_known(new.sstables@, new_ids)) by {
        assert forall|j: int| 0 <= j < new_ids.len() implies new.sstables@.contains_key(
            #[trigger] new_ids[j],
        ) && new.sstables@[new_ids[j]].wf() && new.sstables@[new_ids[j]].id_spec()
            == new_ids[j] by {
            let x = new_ids[j];
            assert(x == first + j);
            assert(first <= x < first + tables.len());
            assert(new.sstables@.contains_key(x));
            assert(new.sstables@[x] == tables[x - first]);
            assert(tables[j].wf() && tables[j].id_spec() == first + j);
        }
    }
    // level 0 holds what it held
    assert forall|j: int| 0 <= j < old.l0_sstables@.len() implies new.sstables@.contains_key(
        #[trigger] old.l0_sstables@[j],
    ) && new.sstables@[old.l0_sstables@[j]] == old.sstables@[old.l0_sstables@[j]] by {
        let x = old.l0_sstables@[j];
        assert(old.l0_sstables@.contains(x));
        assert(old.referenced(x));
        assert(!old.levels@[upper].1@.contains(x));
        assert(!old.levels@[lower].1@.contains(x));
    }
    assert(id_runs(new.sstables@, new.l0_sstables@) =~= id_runs(old.sstables@, old.l0_sstables@));
    assert(ids_known(new.sstables@, new.l0_sstables@));
    // the other levels hold what they held
    assert forall|i: int|
        0 <= i < old.levels@.len() && i != upper && i != lower implies ids_known(
        new.sstables@,
        (#[trigger] old.levels@[i]).1@,
    ) && id_runs(new.sstables@, old.levels@[i].1@) == id_runs(old.sstables@, old.levels@[i].1@) by {
        let ids = old.levels@[i].1@;
        assert(ids_known(old.sstables@, ids));
        assert forall|j: int| 0 <= j < ids.len() implies new.sstables@.contains_key(
            #[trigger] ids[j],
        ) && new.sstables@[ids[j]] == old.sstables@[ids[j]] by {
            let x = ids[j];
            assert(old.levels@[i].1@.contains(x));
            assert(in_levels(old.levels@, x));
            assert(old.referenced(x));
            if i < upper {
                assert(!old.levels@[upper].1@.contains(x));
                assert(!old.levels@[lower].1@.contains(x));
            } else {
                if old.levels@[upper].1@.contains(x) {
                    assert(!old.levels@[i].1@.contains(x));
                }
                if old.levels@[lower].1@.contains(x) {
                    assert(!old.levels@[i].1@.contains(x));
                }
            }
        }
        assert(id_runs(new.sstables@, ids) =~= id_runs(old.sstables@, ids));
    }
    assert forall|i: int| 0 <= i < new.levels@.len() implies ids_known(
        new.sstables@,
        (#[trigger] new.levels@[i]).1@,
    ) && blocks_ordered(id_runs(new.sstables@, new.levels@[i].1@)) by {
        if i == upper {
            assert(id_runs(new.sstables@, new.levels@[i].1@) =~= Seq::<Seq<Entry>>::empty());
        } else if i != lower {
            assert(new.levels@[i] == old.levels@[i]);
            assert(blocks_ordered(id_runs(old.sstables@, old.levels@[i].1@)));
        }
    }
    // what is referenced
    assert forall|id: usize| #[trigger] new.referenced(id) implies id < first + m && (first <= id
        || (old.referenced(id) && !old.levels@[upper].1@.contains(id)
        && !old.levels@[lower].1@.contains(id))) by {
        if new.l0_sstables@.contains(id) {
            assert(old.referenced(id));
            assert(!old.levels@[upper].1@.contains(id));
            assert(!old.levels@[lower].1@.contains(id));
        } else {
            let i = choose|i: int|
                0 <= i < new.levels@.len() && (#[trigger] new.levels@[i]).1@.contains(id);
            if i == lower {
                let j = choose|j: int| 0 <= j < new_ids.len() && new_ids[j] == id;
                assert(new_ids[j] == first + j);
            } else if i == upper {
                assert(false);
            } else {
                assert(new.levels@[i] == old.levels@[i]);
                assert(old.levels@[i].1@.contains(id));
                assert(in_levels(old.levels@, id));
                assert(old.referenced(id));
                if i < upper {
                    assert(!old.levels@[upper].1@.contains(id));
                    assert(!old.levels@[lower].1@.contains(id));
                } else {
                    if old.levels@[upper].1@.contains(id) {
                        assert(!old.levels@[i].1@.contains(id));
                    }
                    if old.levels@[lower].1@.contains(id) {
                        assert(!old.levels@[i].1@.contains(id));
                    }
                }
            }
        }
    }
    assert forall|x: usize| new.sstables@.contains_key(x) implies #[trigger] new.referenced(x) by {
        if first <= x < first + m {
            assert(new_ids[x - first] == x);
            assert(new.levels@[lower].1@.contains(x));
        } else {
            assert(old.referenced(x));
            if !old.l0_sstables@.contains(x) {
                let i = choose|i: int|
                    0 <= i < old.levels@.len() && (#[trigger] old.levels@[i]).1@.contains(x);
                assert(i != upper && i != lower);
                assert(new.levels@[i] == old.levels@[i]);
                assert(new.levels@[i].1@.contains(x));
            }
        }
    }
    assert forall|id: usize, i: int|
        #![trigger new.levels@[i].1@.contains(id)]
        0 <= i < new.levels@.len() && new.l0_sstables@.contains(id) implies !new.levels@[i].1@.contains(
        id,
    ) by {
        assert(old.referenced(id));
        if new.levels@[i].1@.contains(id) {
            if i == lower {
                let j = choose|j: int| 0 <= j < new_ids.len() && new_ids[j] == id;
                assert(new_ids[j] == first + j);
            } else if i != upper {
                assert(new.levels@[i] == old.levels@[i]);
            }
        }
    }
    assert forall|id: usize, i: int, j: int|
        #![trigger new.levels@[i].1@.contains(id), new.levels@[j].1@.contains(id)]
        0 <= i < j < new.levels@.len() && new.levels@[i].1@.contains(id) implies !new.levels@[j].1@.contains(
        id,
    ) by {
        if new.levels@[j].1@.contains(id) {
            if i == lower {
                let x = choose|x: int| 0 <= x < new_ids.len() && new_ids[x] == id;
                assert(new_ids[x] == first + x);
                assert(new.levels@[j] == old.levels@[j]);
                assert(in_levels(old.levels@, id));
                assert(old.referenced(id));
            } else if j == lower {
                let x = choose|x: int| 0 <= x < new_ids.len() && new_ids[x] == id;
                assert(new_ids[x] == first + x);
                assert(new.levels@[i] == old.levels@[i]);
                assert(in_levels(old.levels@, id));
                assert(old.referenced(id));
            } else if i != upper && j != upper {
                assert(new.levels@[i] == old.levels@[i]);
                assert(new.levels@[j] == old.levels@[j]);
            }
        }
    }
    assert(new.mem_runs() =~= old.mem_runs());
}

impl LsmStorageInner {
    /// The task asks to merge all tables of a level below level 0 into the
    /// next, as the strategy does.
    pub open spec fn between_levels(&self, task: TaskView) -> bool {
        let levels = self.state.levels@;
        &&& task.upper_level matches Some(u) && 1 <= u < levels.len() && task.lower_level == u + 1
            && task.upper_level_sst_ids == levels[u - 1].1@ && task.lower_level_sst_ids
            == levels[u as int].1@
        &&& task.is_lower_level_bottom_level == (levels.len() == task.lower_level)
    }

    /// What a compaction of a level into the next does: `after` and `r` are
    /// what it leaves of this engine and what it gives back. The merge of
    /// the two levels, without the tombstones where the lower is the deepest
    /// level, is cut into tables, which become the lower level under the
    /// next identifiers; the upper level is left empty, and the identifiers
    /// of the merged tables are given back. A read gives for every key what
    /// it gave before. Where a new table cannot be encoded, or the
    /// identifiers are used up, nothing changes.
    pub open spec fn level_compacted(
        self,
        after: Self,
        r: Result<Vec<usize>, LsmError>,
        task: TaskView,
    ) -> bool {
        let st = self.state;
        let upper = task.upper_level->0 - 1;
        let lower = upper + 1;
        let tables = cut_tables(
            written(
                leveled_input(st.sstables@, task.upper_level_sst_ids, task.lower_level_sst_ids),
                task.is_lower_level_bottom_level,
            ),
            self.options.block_size as int,
            self.options.target_sst_size as int,
        );
        &&& r is Ok <==> all_encodable(tables, self.options.block_size as int) && self.next_id()
            + tables.len() <= usize::MAX
        &&& r matches Ok(obsolete) ==> {
            &&& obsolete@ == task.upper_level_sst_ids + task.lower_level_sst_ids
            &&& after.state.memtable == st.memtable
            &&& after.state.imm_memtables == st.imm_memtables
            &&& after.state.l0_sstables == st.l0_sstables
            &&& after.state.levels@.len() == st.levels@.len()
            &&& applied(
                st,
                task,
                after.state.levels@[lower].1@,
                LsmStorageState { sstables: st.sstables, ..after.state },
            )
            &&& after.state.levels@[lower].1@.len() == tables.len()
            &&& forall|j: int|
                0 <= j < tables.len() ==> #[trigger] after.state.levels@[lower].1@[j]
                    == self.next_id() + j
            &&& id_runs(after.state.sstables@, after.state.levels@[lower].1@) == tables
            &&& after.next_id() == self.next_id() + tables.len()
            &&& after.options == self.options
            &&& after.compaction_controller == self.compaction_controller
            &&& forall|k: Seq<u8>| after.state.get_spec(k) == st.get_spec(k)
        }
        &&& r matches Err(e) ==> e == LsmError::InvariantViolated && after == self
    }

    /// Merges all tables of a level below level 0 into the next, and gives
    /// the identifiers of the tables that are no longer needed. Every key
    /// reads as before.
    #[verifier::rlimit(60)]
    pub fn compact_levels(&mut self, task: SimpleLeveledCompactionTask) -> (r: Result<
        Vec<usize>,
        LsmError,
    >)
        requires
            old(self).wf(),
            old(self).between_levels(task@),
        ensures
            final(self).wf(),
            old(self).level_compacted(*final(self), r, task@),
    {
        let ghost ost = old(self).state;
        let ghost view = task@;
        let ghost bs = self.options.block_size as int;
        let ghost tg = self.options.target_sst_size as int;
        let ghost drop = task.is_lower_level_bottom_level;
        let lower: usize = task.lower_level - 1;
        let upper: usize = lower - 1;
        let ghost input = written(
            leveled_input(ost.sstables@, ost.levels@[upper as int].1@, ost.levels@[lower as int].1@),
            drop,
        );
        let ghost cut = cut_tables(input, bs, tg);
        let upper_ids = copy_ids(task.upper_level_sst_ids.as_slice());
        let lower_ids = copy_ids(task.lower_level_sst_ids.as_slice());
        let first: usize = self.next_sst_id;
        assert(ids_known(ost.sstables@, ost.levels@[upper as int].1@) && blocks_ordered(
            id_runs(ost.sstables@, ost.levels@[upper as int].1@),
        ));
        assert(ids_known(ost.sstables@, ost.levels@[lower as int].1@) && blocks_ordered(
            id_runs(ost.sstables@, ost.levels@[lower as int].1@),
        ));
        let task = CompactionTask::Simple(task);
        let new_ssts = match self.compact(&task) {
            Ok(t) => t,
            Err(e) => {
                return Err(e);
            },
        };
        remove_tables(&mut self.state.sstables, &upper_ids);
        let ghost map1 = self.state.sstables@;
        remove_tables(&mut self.state.sstables, &lower_ids);
        let ghost map2 = self.state.sstables@;
        let new_ids = insert_tables(&mut self.state.sstables, &new_ssts, first);
        let upper_number: usize = self.state.levels[upper].0;
        self.state.levels.set(upper, (upper_number, Vec::new()));
        let lower_number: usize = self.state.levels[lower].0;
        self.state.levels.set(lower, (lower_number, new_ids));
        let mut obsolete = upper_ids;
        let mut i: usize = 0;
        while i < lower_ids.len()
            invariant
                0 <= i <= lower_ids@.len(),
                obsolete@ == view.upper_level_sst_ids + lower_ids@.subrange(0, i as int),
            decreases lower_ids@.len() - i,
        {
            obsolete.push(lower_ids[i]);
            assert(lower_ids@.subrange(0, i + 1) =~= lower_ids@.subrange(0, i as int).push(
                lower_ids@[i as int],
            ));
            i = i + 1;
        }
        proof {
            assert(lower_ids@.subrange(0, lower_ids@.len() as int) =~= lower_ids@);
            let st = self.state;
            // the new tables follow each other in key order
            lemma_leveled_input(
                ost.sstables@,
                ost.levels@[upper as int].1@,
                ost.levels@[lower as int].1@,
                drop,
                Seq::empty(),
            );
            lemma_cut(input, bs, tg);
            lemma_chunks_ordered(cut, 0);
            assert(tables_view(new_ssts@) =~= cut);
            let m = new_ssts@.len();
            assert forall|x: usize|
                #[trigger] st.sstables@.contains_key(x) <==> (ost.sstables@.contains_key(x)
                    && !ost.levels@[upper as int].1@.contains(x)
                    && !ost.levels@[lower as int].1@.contains(x)) || (first <= x < first + m) by {
                assert(map1.contains_key(x) <==> ost.sstables@.contains_key(x)
                    && !view.upper_level_sst_ids.contains(x));
                assert(map2.contains_key(x) <==> map1.contains_key(x) && !lower_ids@.contains(x));
                assert(st.sstables@.contains_key(x) <==> map2.contains_key(x) || first <= x < first
                    + m);
            }
            assert forall|x: usize|
                st.sstables@.contains_key(x) && !(first <= x < first + m) implies #[trigger] st.sstables@[x]
                    == ost.sstables@[x] by {
                if st.sstables@.contains_key(x) {
                    assert(map2.contains_key(x));
                    assert(map1.contains_key(x));
                    assert(st.sstables@[x] == map2[x]);
                    assert(map2[x] == map1[x]);
                    assert(map1[x] == ost.sstables@[x]);
                }
            }
            lemma_state_after_level_compaction(ost, st, upper as int, first, new_ssts@);
            assert forall|k: Seq<u8>| st.get_spec(k) == ost.get_spec(k) by {
                lemma_level_compaction_preserves(ost, st, upper as int, bs, tg, drop, k);
            }
            lemma_without(ost.levels@[upper as int].1@, view.upper_level_sst_ids);
            let emptied = without(ost.levels@[upper as int].1@, view.upper_level_sst_ids);
            if emptied.len() > 0 {
                assert(emptied.contains(emptied[0]));
            }
            assert(emptied =~= st.levels@[upper as int].1@);
        }
        Ok(obsolete)
    }
}

impl LsmStorageInner {
    /// Asks the strategy for a task and carries it out: all tables of level
    /// 0 and level 1 are merged into level 1, or all tables of a deeper
    /// level into the next. Every key reads as before.
    pub fn trigger_compaction(&mut self) -> (r: Result<Vec<usize>, LsmError>)
        requires
            old(self).wf(),
        ensures
            final(self).wf(),
            match old(self).pending_task() {
                None => r matches Ok(obsolete) && obsolete@.len() == 0 && *final(self) == *old(
                    self,
                ),
                Some(task) => if task.upper_level is None {
                    old(self).fully_compacted(*final(self), r)
                } else {
                    old(self).between_levels(task) && old(self).level_compacted(
                        *final(self),
                        r,
                        task,
                    )
                },
            },
            forall|k: Seq<u8>| final(self).state.get_spec(k) == old(self).state.get_spec(k),
    {
        let task = match &self.compaction_controller {
            CompactionController::Simple(ctrl) => ctrl.generate_compaction_task(&self.state),
            CompactionController::NoCompaction => None,
        };
        match task {
            None => Ok(Vec::new()),
            Some(task) => {
                if task.upper_level.is_none() {
                    self.force_full_compaction()
                } else {
                    let count: usize = self.state.levels.len();
                    proof {
                        let ratio =
                            self.compaction_controller->Simple_0.options_spec().size_ratio_percent as int;
                        let found = first_unbalanced(self.state.levels@, ratio, 1);
                        lemma_first_unbalanced(self.state.levels@, ratio, 1);
                        assert(self.state.levels@.len() == count);
                        assert(self.pending_task() == Some(task@));
                        assert(1 <= found < self.state.levels@.len());
                    }
                    self.compact_levels(task)
                }
            },
        }
    }
}

} // verus!
