//! How the two reads relate: what a scan of a range holds for a key, and
//! what a read of that key gives.

use crate::bound::{
    from_lower, in_range, lemma_lookup_from_lower, lemma_lookup_prefix_within, lemma_lookup_range,
    prefix_within, within_lower, within_upper, BoundView,
};
use crate::entries::{
    all_sorted, blocks_ordered, concat, first_hit, lemma_blocks_chain, lemma_concat_sorted,
    lemma_first_hit_concat, lemma_first_hit_push, lemma_live_sorted, lemma_lookup_live,
    lemma_lookup_merge2, lemma_lookup_merge_n, lemma_lookup_outside, lemma_merge2_sorted,
    lemma_merge_n_sorted, lookup, merge2, merge_n, sorted, Entry,
};
use crate::key::{lemma_key_lt_total, lemma_key_lt_transitive};
use crate::lsm_storage::{
    id_runs, imm_runs, l0_scan_runs, level_hit, level_scan_runs, mem_scan_runs, overlaps, selected,
    LsmStorageState,
};
use crate::table::SsTable;
use std::sync::Arc;
use vstd::prelude::*;

verus! {

/// Every run is sorted and has entries.
pub open spec fn all_filled(runs: Seq<Seq<Entry>>) -> bool {
    forall|i: int| 0 <= i < runs.len() ==> sorted(#[trigger] runs[i]) && runs[i].len() > 0
}

/// A sorted run whose keys do not reach into a range holds nothing for a
/// key in the range.
pub proof fn lemma_outside_range(t: Seq<Entry>, lower: BoundView, upper: BoundView, k: Seq<u8>)
    requires
        sorted(t),
        t.len() > 0,
        !overlaps(t, lower, upper),
        in_range(lower, upper, k),
    ensures
        lookup(t, k) is None,
{
    lemma_key_lt_total(t.last().0, k);
    lemma_key_lt_total(k, t[0].0);
    match lower {
        BoundView::Included(l) => {
            if crate::key::key_lt(t.last().0, l) && l != k {
                lemma_key_lt_transitive(t.last().0, l, k);
            }
        },
        BoundView::Excluded(l) => {
            lemma_key_lt_total(l, t.last().0);
            if crate::key::key_lt(t.last().0, l) {
                lemma_key_lt_transitive(t.last().0, l, k);
            }
        },
        BoundView::Unbounded => {},
    }
    match upper {
        BoundView::Included(u) => {
            if crate::key::key_lt(u, t[0].0) && u != k {
                lemma_key_lt_transitive(k, u, t[0].0);
            }
        },
        BoundView::Excluded(u) => {
            lemma_key_lt_total(t[0].0, u);
            if crate::key::key_lt(u, t[0].0) {
                lemma_key_lt_transitive(k, u, t[0].0);
            }
        },
        BoundView::Unbounded => {},
    }
    if crate::key::key_lt(k, t[0].0) || crate::key::key_lt(t.last().0, k) {
        lemma_lookup_outside(t, k);
    }
}

/// For a key in a range, the tables whose keys reach into the range hold
/// what all the tables hold.
pub proof fn lemma_selected_hit(
    tables: Seq<Seq<Entry>>,
    lower: BoundView,
    upper: BoundView,
    k: Seq<u8>,
)
    requires
        all_filled(tables),
        in_range(lower, upper, k),
    ensures
        first_hit(selected(tables, lower, upper), k) == first_hit(tables, k),
    decreases tables.len(),
{
    if tables.len() > 0 {
        let rest = tables.drop_last();
        let last = tables.last();
        assert(tables =~= rest.push(last));
        assert forall|i: int| 0 <= i < rest.len() implies sorted(#[trigger] rest[i])
            && rest[i].len() > 0 by {
            assert(rest[i] == tables[i]);
        }
        lemma_selected_hit(rest, lower, upper, k);
        lemma_first_hit_push(rest, last, k);
        lemma_first_hit_push(selected(rest, lower, upper), last, k);
        if !overlaps(last, lower, upper) {
            lemma_outside_range(last, lower, upper, k);
        }
    }
}

/// Of ordered tables, those whose keys reach into a range are ordered.
pub proof fn lemma_selected_ordered(tables: Seq<Seq<Entry>>, lower: BoundView, upper: BoundView)
    requires
        blocks_ordered(tables),
    ensures
        blocks_ordered(selected(tables, lower, upper)),
        selected(tables, lower, upper).len() > 0 ==> exists|j: int|
            0 <= j < tables.len() && selected(tables, lower, upper).last() == #[trigger] tables[j],
    decreases tables.len(),
{
    if tables.len() > 0 {
        let n = tables.len() as int;
        let rest = tables.drop_last();
        let last = tables.last();
        let before = selected(rest, lower, upper);
        let chosen = selected(tables, lower, upper);
        assert forall|i: int| 0 <= i < rest.len() implies (#[trigger] rest[i]).len() > 0 && sorted(
            rest[i],
        ) by {
            assert(rest[i] == tables[i]);
        }
        assert forall|i: int| 0 <= i < rest.len() - 1 implies crate::key::key_lt(
            (#[trigger] rest[i]).last().0,
            rest[i + 1][0].0,
        ) by {
            assert(rest[i] == tables[i]);
            assert(rest[i + 1] == tables[i + 1]);
        }
        lemma_selected_ordered(rest, lower, upper);
        if overlaps(last, lower, upper) {
            assert(chosen.last() == tables[n - 1]);
            assert(last.len() > 0 && sorted(last));
            assert forall|i: int| 0 <= i < chosen.len() - 1 implies crate::key::key_lt(
                (#[trigger] chosen[i]).last().0,
                chosen[i + 1][0].0,
            ) by {
                if i < before.len() - 1 {
                    assert(chosen[i] == before[i]);
                    assert(chosen[i + 1] == before[i + 1]);
                } else {
                    let j = choose|j: int|
                        0 <= j < rest.len() && before.last() == #[trigger] rest[j];
                    assert(rest[j] == tables[j]);
                    lemma_blocks_chain(tables, j, n - 1);
                }
            }
        } else if chosen.len() > 0 {
            let j = choose|j: int| 0 <= j < rest.len() && before.last() == #[trigger] rest[j];
            assert(chosen.last() == tables[j]);
        }
    }
}

/// What the tables of level 0 give to a scan is sorted, table by table, and
/// holds for a key at or before the upper end of the range what the tables
/// hold if the key lies in the range, else nothing.
pub proof fn lemma_l0_scan_hit(
    tables: Seq<Seq<Entry>>,
    lower: BoundView,
    upper: BoundView,
    k: Seq<u8>,
)
    requires
        all_filled(tables),
    ensures
        all_sorted(l0_scan_runs(tables, lower, upper)),
        within_upper(upper, k) ==> first_hit(l0_scan_runs(tables, lower, upper), k) == if within_lower(
            lower,
            k,
        ) {
            first_hit(tables, k)
        } else {
            None
        },
    decreases tables.len(),
{
    if tables.len() > 0 {
        let rest = tables.drop_last();
        let last = tables.last();
        assert(tables =~= rest.push(last));
        assert forall|i: int| 0 <= i < rest.len() implies sorted(#[trigger] rest[i])
            && rest[i].len() > 0 by {
            assert(rest[i] == tables[i]);
        }
        lemma_l0_scan_hit(rest, lower, upper, k);
        lemma_first_hit_push(rest, last, k);
        lemma_first_hit_push(l0_scan_runs(rest, lower, upper), from_lower(last, lower), k);
        lemma_lookup_from_lower(last, lower, k);
        if !overlaps(last, lower, upper) && in_range(lower, upper, k) {
            lemma_outside_range(last, lower, upper, k);
        }
    }
}

/// What the memtables give to a scan is sorted, memtable by memtable, and
/// holds for a key what the memtables hold if the key lies in the range,
/// else nothing.
pub proof fn lemma_mem_scan_hit(
    runs: Seq<Seq<Entry>>,
    lower: BoundView,
    upper: BoundView,
    k: Seq<u8>,
)
    requires
        all_sorted(runs),
    ensures
        all_sorted(mem_scan_runs(runs, lower, upper)),
        first_hit(mem_scan_runs(runs, lower, upper), k) == if in_range(lower, upper, k) {
            first_hit(runs, k)
        } else {
            None
        },
    decreases runs.len(),
{
    let given = mem_scan_runs(runs, lower, upper);
    assert forall|i: int| 0 <= i < given.len() implies sorted(#[trigger] given[i]) by {
        lemma_lookup_range(runs[i], lower, upper, k);
    }
    if runs.len() > 0 {
        let rest = runs.skip(1);
        assert forall|i: int| 0 <= i < rest.len() implies sorted(#[trigger] rest[i]) by {
            assert(rest[i] == runs[i + 1]);
        }
        lemma_mem_scan_hit(rest, lower, upper, k);
        assert(given.skip(1) =~= mem_scan_runs(rest, lower, upper));
        lemma_lookup_range(runs[0], lower, upper, k);
    }
}

/// What a deeper level gives to a scan is sorted, and holds for a key at or
/// before the upper end of the range what the tables of the level hold if
/// the key lies in the range, else nothing.
pub proof fn lemma_level_run(tables: Seq<Seq<Entry>>, lower: BoundView, upper: BoundView, k: Seq<u8>)
    requires
        blocks_ordered(tables),
    ensures
        sorted(from_lower(concat(selected(tables, lower, upper)), lower)),
        within_upper(upper, k) ==> lookup(
            from_lower(concat(selected(tables, lower, upper)), lower),
            k,
        ) == if within_lower(lower, k) {
            first_hit(tables, k)
        } else {
            None
        },
{
    let chosen = selected(tables, lower, upper);
    lemma_selected_ordered(tables, lower, upper);
    lemma_concat_sorted(chosen, 0);
    lemma_lookup_from_lower(concat(chosen), lower, k);
    lemma_first_hit_concat(chosen, 0, k);
    assert(chosen.skip(0) =~= chosen);
    if in_range(lower, upper, k) {
        lemma_selected_hit(tables, lower, upper, k);
    }
}

/// The levels from `from` on give to a scan, for a key at or before the
/// upper end of the range, what they hold if the key lies in the range,
/// else nothing.
pub proof fn lemma_level_scan_hit(
    map: Map<usize, Arc<SsTable>>,
    levels: Seq<(usize, Vec<usize>)>,
    lower: BoundView,
    upper: BoundView,
    from: int,
    k: Seq<u8>,
)
    requires
        0 <= from <= levels.len(),
        forall|i: int|
            0 <= i < levels.len() ==> blocks_ordered(id_runs(map, (#[trigger] levels[i]).1@)),
    ensures
        all_sorted(level_scan_runs(map, levels, lower, upper)),
        within_upper(upper, k) ==> first_hit(
            level_scan_runs(map, levels, lower, upper).skip(from),
            k,
        ) == if within_lower(lower, k) {
            level_hit(map, levels, from, k)
        } else {
            None
        },
    decreases levels.len() - from,
{
    let given = level_scan_runs(map, levels, lower, upper);
    assert forall|i: int| 0 <= i < given.len() implies sorted(#[trigger] given[i]) by {
        lemma_level_run(id_runs(map, levels[i].1@), lower, upper, k);
    }
    if from < levels.len() {
        lemma_level_scan_hit(map, levels, lower, upper, from + 1, k);
        lemma_level_run(id_runs(map, levels[from].1@), lower, upper, k);
        assert(given.skip(from)[0] == given[from]);
        assert(given.skip(from).skip(1) =~= given.skip(from + 1));
    }
}

/// A scan is sorted by key and without tombstones; it holds nothing for a
/// key outside its range, and for a key in its range what a read of the key
/// gives: a key that is deleted in the newest layer that holds it is not
/// scanned, whatever older layers hold.
pub proof fn lemma_scan_agrees_with_get(
    state: LsmStorageState,
    lower: BoundView,
    upper: BoundView,
    k: Seq<u8>,
)
    requires
        state.wf(),
    ensures
        sorted(state.scan_spec(lower, upper)),
        lookup(state.scan_spec(lower, upper), k) == if in_range(lower, upper, k) {
            state.get_spec(k)
        } else {
            None
        },
{
    let mem_runs = mem_scan_runs(state.mem_runs(), lower, upper);
    let l0_runs = l0_scan_runs(state.l0_runs(), lower, upper);
    let deep_runs = level_scan_runs(state.sstables@, state.levels@, lower, upper);
    let mem = merge_n(mem_runs);
    let l0 = merge_n(l0_runs);
    let deep = merge_n(deep_runs);
    assert forall|i: int| 0 <= i < state.mem_runs().len() implies sorted(
        #[trigger] state.mem_runs()[i],
    ) by {
        if i == 0 {
            state.memtable.lemma_wf();
        } else {
            assert(state.mem_runs()[i] == imm_runs(state.imm_memtables@)[i - 1]);
            assert(state.imm_memtables@[i - 1].wf());
            state.imm_memtables@[i - 1].lemma_wf();
        }
    }
    assert forall|i: int| 0 <= i < state.l0_runs().len() implies sorted(
        #[trigger] state.l0_runs()[i],
    ) && state.l0_runs()[i].len() > 0 by {
        let id = state.l0_sstables@[i];
        assert(state.sstables@.contains_key(id) && state.sstables@[id].wf());
        state.sstables@[id].lemma_wf();
    }
    lemma_mem_scan_hit(state.mem_runs(), lower, upper, k);
    lemma_l0_scan_hit(state.l0_runs(), lower, upper, k);
    lemma_level_scan_hit(state.sstables@, state.levels@, lower, upper, 0, k);
    assert(deep_runs.skip(0) =~= deep_runs);
    lemma_merge_n_sorted(mem_runs);
    lemma_merge_n_sorted(l0_runs);
    lemma_merge_n_sorted(deep_runs);
    lemma_lookup_merge_n(mem_runs, k);
    lemma_lookup_merge_n(l0_runs, k);
    lemma_lookup_merge_n(deep_runs, k);
    let upper_part = merge2(mem, l0);
    lemma_merge2_sorted(mem, l0);
    lemma_lookup_merge2(mem, l0, k);
    let whole = merge2(upper_part, deep);
    lemma_merge2_sorted(upper_part, deep);
    lemma_lookup_merge2(upper_part, deep, k);
    lemma_lookup_prefix_within(whole, upper, k);
    lemma_lookup_live(prefix_within(whole, upper), k);
    lemma_live_sorted(prefix_within(whole, upper));
}

} // verus!
