//! Sorted runs of key-value entries: the model that tables and iterators share.

use crate::key::{
    key_le, key_lt, lemma_key_lt_irreflexive, lemma_key_lt_total, lemma_key_lt_transitive,
};
use vstd::prelude::*;

verus! {

/// A key and the value stored under it.
pub type Entry = (Seq<u8>, Seq<u8>);

/// The keys are strictly increasing.
pub open spec fn sorted(s: Seq<Entry>) -> bool {
    forall|i: int, j: int| 0 <= i < j < s.len() ==> key_lt(#[trigger] s[i].0, #[trigger] s[j].0)
}

/// Every key is non-empty and at most 65535 bytes long.
pub open spec fn keys_bounded(s: Seq<Entry>) -> bool {
    forall|i: int| 0 <= i < s.len() ==> 1 <= (#[trigger] s[i]).0.len() <= 0xFFFF
}

/// Every value is at most 65535 bytes long.
pub open spec fn values_bounded(s: Seq<Entry>) -> bool {
    forall|i: int| 0 <= i < s.len() ==> (#[trigger] s[i]).1.len() <= 0xFFFF
}

/// The value of the first entry with key `k`, if there is one.
pub open spec fn lookup(s: Seq<Entry>, k: Seq<u8>) -> Option<Seq<u8>>
    decreases s.len(),
{
    if s.len() == 0 {
        None
    } else if s[0].0 == k {
        Some(s[0].1)
    } else {
        lookup(s.skip(1), k)
    }
}

/// The number of leading entries whose key sorts before `k`: in a sorted run,
/// the position of the first entry with a key at or after `k`.
pub open spec fn lower_bound(s: Seq<Entry>, k: Seq<u8>) -> int
    decreases s.len(),
{
    if s.len() == 0 || !key_lt(s[0].0, k) {
        0
    } else {
        1 + lower_bound(s.skip(1), k)
    }
}

/// The lower bound lies within the run, everything before it sorts before
/// `k`, and the entry at it, if any, does not.
pub proof fn lemma_lower_bound(s: Seq<Entry>, k: Seq<u8>)
    ensures
        0 <= lower_bound(s, k) <= s.len(),
        forall|j: int| 0 <= j < lower_bound(s, k) ==> key_lt(#[trigger] s[j].0, k),
        lower_bound(s, k) < s.len() ==> !key_lt(s[lower_bound(s, k)].0, k),
    decreases s.len(),
{
    if s.len() == 0 || !key_lt(s[0].0, k) {
    } else {
        lemma_lower_bound(s.skip(1), k);
        let n = lower_bound(s, k);
        assert forall|j: int| 0 <= j < n implies key_lt(#[trigger] s[j].0, k) by {
            if j > 0 {
                assert(s.skip(1)[j - 1] == s[j]);
            }
        }
        if n < s.len() {
            assert(s.skip(1)[n - 1] == s[n]);
        }
    }
}

/// A position that everything before sorts before `k`, and at which the run
/// ends or an entry does not sort before `k`, is the lower bound.
pub proof fn lemma_lower_bound_unique(s: Seq<Entry>, k: Seq<u8>, n: int)
    requires
        0 <= n <= s.len(),
        forall|j: int| 0 <= j < n ==> key_lt(#[trigger] s[j].0, k),
        n < s.len() ==> !key_lt(s[n].0, k),
    ensures
        lower_bound(s, k) == n,
    decreases s.len(),
{
    if n > 0 {
        assert(key_lt(s[0].0, k));
        assert forall|j: int| 0 <= j < n - 1 implies key_lt(#[trigger] s.skip(1)[j].0, k) by {
            assert(s.skip(1)[j] == s[j + 1]);
        }
        if n < s.len() {
            assert(s.skip(1)[n - 1] == s[n]);
        }
        lemma_lower_bound_unique(s.skip(1), k, n - 1);
    }
}

/// In a sorted run every entry from the lower bound on has a key at or after `k`.
pub proof fn lemma_lower_bound_sorted(s: Seq<Entry>, k: Seq<u8>)
    requires
        sorted(s),
    ensures
        forall|j: int| lower_bound(s, k) <= j < s.len() ==> key_le(k, #[trigger] s[j].0),
{
    lemma_lower_bound(s, k);
    let n = lower_bound(s, k);
    assert forall|j: int| n <= j < s.len() implies key_le(k, #[trigger] s[j].0) by {
        lemma_key_lt_total(s[n].0, k);
        if j > n {
            lemma_key_lt_total(s[j].0, k);
            if key_lt(s[j].0, k) {
                lemma_key_lt_transitive(s[n].0, s[j].0, k);
            }
        }
    }
}

/// A part of a sorted run is sorted.
pub proof fn lemma_sorted_subrange(s: Seq<Entry>, from: int, to: int)
    requires
        sorted(s),
        0 <= from <= to <= s.len(),
    ensures
        sorted(s.subrange(from, to)),
{
    let t = s.subrange(from, to);
    assert forall|i: int, j: int| 0 <= i < j < t.len() implies key_lt(
        #[trigger] t[i].0,
        #[trigger] t[j].0,
    ) by {
        assert(t[i] == s[from + i]);
        assert(t[j] == s[from + j]);
    }
}

/// Every key sorts after `k`.
pub open spec fn all_after(s: Seq<Entry>, k: Seq<u8>) -> bool {
    forall|i: int| 0 <= i < s.len() ==> key_lt(k, #[trigger] s[i].0)
}

/// A sorted run is an entry followed by a sorted run of later keys.
pub proof fn lemma_sorted_tail(s: Seq<Entry>)
    requires
        sorted(s),
        s.len() > 0,
    ensures
        sorted(s.skip(1)),
        all_after(s.skip(1), s[0].0),
{
    let t = s.skip(1);
    assert forall|i: int, j: int| 0 <= i < j < t.len() implies key_lt(
        #[trigger] t[i].0,
        #[trigger] t[j].0,
    ) by {
        assert(t[i] == s[i + 1]);
        assert(t[j] == s[j + 1]);
    }
    assert forall|i: int| 0 <= i < t.len() implies key_lt(s[0].0, #[trigger] t[i].0) by {
        assert(t[i] == s[i + 1]);
    }
}

/// An entry put before a sorted run of later keys gives a sorted run.
pub proof fn lemma_sorted_cons(x: Entry, s: Seq<Entry>)
    requires
        sorted(s),
        all_after(s, x.0),
    ensures
        sorted(seq![x] + s),
{
    let t = seq![x] + s;
    assert forall|i: int, j: int| 0 <= i < j < t.len() implies key_lt(
        #[trigger] t[i].0,
        #[trigger] t[j].0,
    ) by {
        assert(t[j] == s[j - 1]);
        if i > 0 {
            assert(t[i] == s[i - 1]);
        }
    }
}

/// A run whose keys all sort after `k` holds no entry for `k` or for a key before it.
pub proof fn lemma_lookup_before(s: Seq<Entry>, k: Seq<u8>, bound: Seq<u8>)
    requires
        all_after(s, bound),
        key_le(k, bound),
    ensures
        lookup(s, k) is None,
    decreases s.len(),
{
    if s.len() > 0 {
        assert(key_lt(bound, s[0].0));
        lemma_key_lt_total(k, s[0].0);
        if k == s[0].0 {
            if k == bound {
                lemma_key_lt_irreflexive(k);
            } else {
                lemma_key_lt_transitive(k, bound, k);
                lemma_key_lt_irreflexive(k);
            }
        }
        assert forall|i: int| 0 <= i < s.skip(1).len() implies key_lt(
            bound,
            #[trigger] s.skip(1)[i].0,
        ) by {
            assert(s.skip(1)[i] == s[i + 1]);
        }
        lemma_lookup_before(s.skip(1), k, bound);
    }
}

/// What a run holds for `k` is held by one of its entries; a run holds
/// nothing for `k` exactly if no entry has that key.
pub proof fn lemma_lookup_index(s: Seq<Entry>, k: Seq<u8>)
    ensures
        lookup(s, k) is Some ==> exists|i: int|
            0 <= i < s.len() && (#[trigger] s[i]).0 == k && s[i].1 == lookup(s, k)->0,
        lookup(s, k) is None ==> forall|i: int| 0 <= i < s.len() ==> (#[trigger] s[i]).0 != k,
    decreases s.len(),
{
    if s.len() > 0 {
        if s[0].0 == k {
            assert(s[0].0 == k && s[0].1 == lookup(s, k)->0);
        } else {
            lemma_lookup_index(s.skip(1), k);
            if lookup(s, k) is Some {
                let i = choose|i: int|
                    0 <= i < s.skip(1).len() && (#[trigger] s.skip(1)[i]).0 == k && s.skip(1)[i].1
                        == lookup(s.skip(1), k)->0;
                assert(s.skip(1)[i] == s[i + 1]);
                assert(s[i + 1].0 == k && s[i + 1].1 == lookup(s, k)->0);
            } else {
                assert forall|i: int| 0 <= i < s.len() implies (#[trigger] s[i]).0 != k by {
                    if i > 0 {
                        assert(s.skip(1)[i - 1] == s[i]);
                    }
                }
            }
        }
    }
}

/// In a sorted run the entry with key `k` is what the run holds for `k`.
pub proof fn lemma_lookup_sorted(s: Seq<Entry>, i: int)
    requires
        sorted(s),
        0 <= i < s.len(),
    ensures
        lookup(s, s[i].0) == Some(s[i].1),
    decreases i,
{
    if i > 0 {
        assert(key_lt(s[0].0, s[i].0));
        lemma_key_lt_total(s[0].0, s[i].0);
        lemma_sorted_tail(s);
        assert(s.skip(1)[i - 1] == s[i]);
        lemma_lookup_sorted(s.skip(1), i - 1);
    }
}

/// The entries of a run whose value is not empty: the run without its tombstones.
pub open spec fn live(s: Seq<Entry>) -> Seq<Entry>
    decreases s.len(),
{
    if s.len() == 0 {
        Seq::empty()
    } else if s[0].1.len() == 0 {
        live(s.skip(1))
    } else {
        seq![s[0]] + live(s.skip(1))
    }
}

/// The union of two runs in key order; where both hold a key, the entry of
/// the first run is taken and that of the second left out.
pub open spec fn merge2(a: Seq<Entry>, b: Seq<Entry>) -> Seq<Entry>
    decreases a.len() + b.len(),
{
    if a.len() == 0 {
        b
    } else if b.len() == 0 {
        a
    } else if key_lt(a[0].0, b[0].0) {
        seq![a[0]] + merge2(a.skip(1), b)
    } else if a[0].0 == b[0].0 {
        seq![a[0]] + merge2(a.skip(1), b.skip(1))
    } else {
        seq![b[0]] + merge2(a, b.skip(1))
    }
}

/// The union of any number of runs in key order; where several hold a key,
/// the entry of the run with the smallest index is taken.
pub open spec fn merge_n(runs: Seq<Seq<Entry>>) -> Seq<Entry>
    decreases runs.len(),
{
    if runs.len() == 0 {
        Seq::empty()
    } else {
        merge2(runs[0], merge_n(runs.skip(1)))
    }
}

/// The value that the first run holding `k` has for it.
pub open spec fn first_hit(runs: Seq<Seq<Entry>>, k: Seq<u8>) -> Option<Seq<u8>>
    decreases runs.len(),
{
    if runs.len() == 0 {
        None
    } else if lookup(runs[0], k) is Some {
        lookup(runs[0], k)
    } else {
        first_hit(runs.skip(1), k)
    }
}

/// The run without its first entry, if that entry has key `k`.
pub open spec fn drop_key(s: Seq<Entry>, k: Seq<u8>) -> Seq<Entry> {
    if s.len() > 0 && s[0].0 == k {
        s.skip(1)
    } else {
        s
    }
}

/// No run has an entry.
pub open spec fn all_empty(runs: Seq<Seq<Entry>>) -> bool {
    forall|j: int| 0 <= j < runs.len() ==> (#[trigger] runs[j]).len() == 0
}

/// Run `w` starts with the smallest key among the first keys of the runs,
/// and no run before it starts with the same key.
pub open spec fn is_winner(runs: Seq<Seq<Entry>>, w: int) -> bool {
    &&& 0 <= w < runs.len()
    &&& runs[w].len() > 0
    &&& forall|j: int|
        0 <= j < w && (#[trigger] runs[j]).len() > 0 ==> key_lt(runs[w][0].0, runs[j][0].0)
    &&& forall|j: int|
        w < j < runs.len() && (#[trigger] runs[j]).len() > 0 ==> key_le(runs[w][0].0, runs[j][0].0)
}

/// The index of the run that starts with the smallest key, the first of them
/// where several do; -1 where no run has an entry.
pub open spec fn winner(runs: Seq<Seq<Entry>>) -> int
    decreases runs.len(),
{
    if runs.len() == 0 {
        -1
    } else {
        let w = winner(runs.skip(1));
        if runs[0].len() == 0 {
            if w < 0 {
                -1
            } else {
                w + 1
            }
        } else if w < 0 || key_le(runs[0][0].0, runs[w + 1][0].0) {
            0
        } else {
            w + 1
        }
    }
}

/// `winner` gives the winner, or -1 where no run has an entry.
pub proof fn lemma_winner(runs: Seq<Seq<Entry>>)
    ensures
        winner(runs) == -1 ==> all_empty(runs),
        winner(runs) != -1 ==> is_winner(runs, winner(runs)),
    decreases runs.len(),
{
    if runs.len() > 0 {
        let rest = runs.skip(1);
        lemma_winner(rest);
        let w = winner(rest);
        assert forall|j: int| 0 <= j < rest.len() implies rest[j] == runs[j + 1] by {}
        if w < 0 {
            assert forall|j: int| 1 <= j < runs.len() implies (#[trigger] runs[j]).len() == 0 by {
                assert(rest[j - 1] == runs[j]);
            }
        } else {
            assert(rest[w] == runs[w + 1]);
            let hw = runs[w + 1][0].0;
            // the winner of the rest starts at or before every run of the rest
            assert forall|j: int| 1 <= j < runs.len() && (#[trigger] runs[j]).len() > 0 implies key_le(
                hw,
                runs[j][0].0,
            ) by {
                assert(rest[j - 1] == runs[j]);
            }
            if runs[0].len() > 0 {
                let h0 = runs[0][0].0;
                lemma_key_lt_total(h0, hw);
                if key_le(h0, hw) {
                    assert forall|j: int|
                        0 < j < runs.len() && (#[trigger] runs[j]).len() > 0 implies key_le(
                        h0,
                        runs[j][0].0,
                    ) by {
                        if h0 != hw && hw != runs[j][0].0 {
                            lemma_key_lt_transitive(h0, hw, runs[j][0].0);
                        }
                    }
                } else {
                    assert forall|j: int|
                        0 <= j < w + 1 && (#[trigger] runs[j]).len() > 0 implies key_lt(
                        hw,
                        runs[j][0].0,
                    ) by {
                        if j > 0 {
                            assert(rest[j - 1] == runs[j]);
                        }
                    }
                }
            } else {
                assert forall|j: int|
                    0 <= j < w + 1 && (#[trigger] runs[j]).len() > 0 implies key_lt(
                    hw,
                    runs[j][0].0,
                ) by {
                    if j > 0 {
                        assert(rest[j - 1] == runs[j]);
                    }
                }
            }
        }
    }
}

/// Merging with a run without entries changes nothing.
pub proof fn lemma_merge2_empty(a: Seq<Entry>)
    ensures
        merge2(a, Seq::empty()) == a,
        merge2(Seq::empty(), a) == a,
{
    if a.len() == 0 {
        assert(a =~= Seq::<Entry>::empty());
    }
}

/// The merge of two runs starts with the first entry of the first run, unless
/// that run has no entry or the second run starts with a smaller key.
pub proof fn lemma_merge2_head(a: Seq<Entry>, b: Seq<Entry>)
    ensures
        merge2(a, b).len() == 0 <==> a.len() == 0 && b.len() == 0,
        a.len() > 0 && (b.len() == 0 || key_le(a[0].0, b[0].0)) ==> merge2(a, b)[0] == a[0],
        b.len() > 0 && (a.len() == 0 || key_lt(b[0].0, a[0].0)) ==> merge2(a, b)[0] == b[0],
{
    if a.len() > 0 && b.len() > 0 {
        lemma_key_lt_total(a[0].0, b[0].0);
    }
}

/// Leaving out the first entry of a merge is merging the runs without their
/// entries for its key.
pub proof fn lemma_merge2_step(a: Seq<Entry>, b: Seq<Entry>)
    requires
        merge2(a, b).len() > 0,
    ensures
        merge2(a, b).skip(1) == merge2(
            drop_key(a, merge2(a, b)[0].0),
            drop_key(b, merge2(a, b)[0].0),
        ),
{
    let m = merge2(a, b);
    if a.len() == 0 {
        lemma_merge2_empty(b.skip(1));
        assert(a =~= Seq::<Entry>::empty());
    } else if b.len() == 0 {
        lemma_merge2_empty(a.skip(1));
        assert(b =~= Seq::<Entry>::empty());
    } else if key_lt(a[0].0, b[0].0) {
        lemma_key_lt_total(a[0].0, b[0].0);
        assert(m.skip(1) =~= merge2(a.skip(1), b));
    } else if a[0].0 == b[0].0 {
        assert(m.skip(1) =~= merge2(a.skip(1), b.skip(1)));
    } else {
        assert(m.skip(1) =~= merge2(a, b.skip(1)));
    }
}

/// The merge of runs without entries has no entry.
pub proof fn lemma_merge_n_empty(runs: Seq<Seq<Entry>>)
    requires
        all_empty(runs),
    ensures
        merge_n(runs).len() == 0,
    decreases runs.len(),
{
    if runs.len() > 0 {
        let rest = runs.skip(1);
        assert forall|j: int| 0 <= j < rest.len() implies (#[trigger] rest[j]).len() == 0 by {
            assert(rest[j] == runs[j + 1]);
        }
        lemma_merge_n_empty(rest);
        assert(runs[0].len() == 0);
    }
}

/// The winner among the runs after the first is the winner among all runs,
/// one place to the left.
proof fn lemma_winner_rest(runs: Seq<Seq<Entry>>, w: int)
    requires
        is_winner(runs, w),
        w > 0,
    ensures
        is_winner(runs.skip(1), w - 1),
{
    let rest = runs.skip(1);
    assert(rest[w - 1] == runs[w]);
    assert forall|j: int| 0 <= j < w - 1 && (#[trigger] rest[j]).len() > 0 implies key_lt(
        rest[w - 1][0].0,
        rest[j][0].0,
    ) by {
        assert(rest[j] == runs[j + 1]);
    }
    assert forall|j: int| w - 1 < j < rest.len() && (#[trigger] rest[j]).len() > 0 implies key_le(
        rest[w - 1][0].0,
        rest[j][0].0,
    ) by {
        assert(rest[j] == runs[j + 1]);
    }
}

/// The merge of runs starts with the first entry of the winner.
pub proof fn lemma_merge_n_head(runs: Seq<Seq<Entry>>, w: int)
    requires
        is_winner(runs, w),
    ensures
        merge_n(runs).len() > 0,
        merge_n(runs)[0] == runs[w][0],
    decreases runs.len(),
{
    let rest = runs.skip(1);
    let m = merge_n(rest);
    lemma_merge2_head(runs[0], m);
    if w == 0 {
        lemma_winner(rest);
        let wr = winner(rest);
        if wr < 0 {
            lemma_merge_n_empty(rest);
        } else {
            lemma_merge_n_head(rest, wr);
            assert(rest[wr] == runs[wr + 1]);
            assert(runs[wr + 1].len() > 0);
        }
    } else {
        lemma_winner_rest(runs, w);
        lemma_merge_n_head(rest, w - 1);
        assert(rest[w - 1] == runs[w]);
        if runs[0].len() > 0 {
            assert(key_lt(runs[w][0].0, runs[0][0].0));
        }
    }
}

/// Leaving out the first entry of a merge is merging the runs without their
/// entries for its key.
pub proof fn lemma_merge_n_step(runs: Seq<Seq<Entry>>, w: int, next: Seq<Seq<Entry>>)
    requires
        is_winner(runs, w),
        next.len() == runs.len(),
        forall|j: int| 0 <= j < runs.len() ==> #[trigger] next[j] == drop_key(runs[j], runs[w][0].0),
    ensures
        merge_n(next) == merge_n(runs).skip(1),
    decreases runs.len(),
{
    let k = runs[w][0].0;
    let rest = runs.skip(1);
    let next_rest = next.skip(1);
    let m = merge_n(rest);
    lemma_merge_n_head(runs, w);
    lemma_merge2_step(runs[0], m);
    assert(next[0] == drop_key(runs[0], k));
    assert forall|j: int| 0 <= j < rest.len() implies #[trigger] next_rest[j] == drop_key(
        rest[j],
        k,
    ) by {
        assert(next_rest[j] == next[j + 1]);
        assert(rest[j] == runs[j + 1]);
    }
    lemma_winner(rest);
    let wr = winner(rest);
    if wr < 0 {
        lemma_merge_n_empty(rest);
        assert forall|j: int| 0 <= j < next_rest.len() implies (#[trigger] next_rest[j]).len()
            == 0 by {
            assert(next_rest[j] == drop_key(rest[j], k));
        }
        lemma_merge_n_empty(next_rest);
        assert(m =~= merge_n(next_rest));
        assert(drop_key(m, k) == m);
    } else {
        lemma_merge_n_head(rest, wr);
        assert(rest[wr] == runs[wr + 1]);
        if m[0].0 == k {
            lemma_merge_n_step(rest, wr, next_rest);
        } else {
            // no run of the rest starts with k
            assert forall|j: int| 0 <= j < rest.len() implies #[trigger] next_rest[j]
                == rest[j] by {
                assert(next_rest[j] == drop_key(rest[j], k));
                if rest[j].len() > 0 && rest[j][0].0 == k {
                    assert(rest[j] == runs[j + 1]);
                    // the winner of the rest starts at or before run j, so with k
                    assert(is_winner(rest, wr));
                    if j < wr {
                        assert(key_lt(rest[wr][0].0, rest[j][0].0));
                    } else if j > wr {
                        assert(key_le(rest[wr][0].0, rest[j][0].0));
                    }
                    // and the winner of all runs starts at or before it
                    if wr + 1 < w {
                        assert(key_lt(k, runs[wr + 1][0].0));
                    } else if wr + 1 > w {
                        assert(key_le(k, runs[wr + 1][0].0));
                    }
                    lemma_key_lt_total(k, m[0].0);
                }
            }
            assert(next_rest =~= rest);
        }
    }
}

/// What a merge of two sorted runs holds for a key is what the first run
/// holds for it, or else what the second holds.
pub proof fn lemma_lookup_merge2(a: Seq<Entry>, b: Seq<Entry>, k: Seq<u8>)
    requires
        sorted(a),
        sorted(b),
    ensures
        lookup(merge2(a, b), k) == if lookup(a, k) is Some {
            lookup(a, k)
        } else {
            lookup(b, k)
        },
    decreases a.len() + b.len(),
{
    if a.len() == 0 || b.len() == 0 {
    } else {
        lemma_sorted_tail(a);
        lemma_sorted_tail(b);
        if key_lt(a[0].0, b[0].0) {
            let m = seq![a[0]] + merge2(a.skip(1), b);
            assert(m.skip(1) =~= merge2(a.skip(1), b));
            lemma_lookup_merge2(a.skip(1), b, k);
        } else if a[0].0 == b[0].0 {
            let m = seq![a[0]] + merge2(a.skip(1), b.skip(1));
            assert(m.skip(1) =~= merge2(a.skip(1), b.skip(1)));
            lemma_lookup_merge2(a.skip(1), b.skip(1), k);
        } else {
            let m = seq![b[0]] + merge2(a, b.skip(1));
            assert(m.skip(1) =~= merge2(a, b.skip(1)));
            lemma_lookup_merge2(a, b.skip(1), k);
            lemma_key_lt_total(a[0].0, b[0].0);
            if k == b[0].0 {
                lemma_lookup_before(a.skip(1), k, a[0].0);
            }
        }
    }
}

/// Every key of a merge of two runs whose keys sort after `k` sorts after `k`.
pub proof fn lemma_merge2_all_after(a: Seq<Entry>, b: Seq<Entry>, k: Seq<u8>)
    requires
        all_after(a, k),
        all_after(b, k),
    ensures
        all_after(merge2(a, b), k),
    decreases a.len() + b.len(),
{
    if a.len() == 0 || b.len() == 0 {
    } else {
        assert forall|i: int| 0 <= i < a.skip(1).len() implies key_lt(
            k,
            #[trigger] a.skip(1)[i].0,
        ) by {
            assert(a.skip(1)[i] == a[i + 1]);
        }
        assert forall|i: int| 0 <= i < b.skip(1).len() implies key_lt(
            k,
            #[trigger] b.skip(1)[i].0,
        ) by {
            assert(b.skip(1)[i] == b[i + 1]);
        }
        let m = merge2(a, b);
        if key_lt(a[0].0, b[0].0) {
            lemma_merge2_all_after(a.skip(1), b, k);
            let t = merge2(a.skip(1), b);
            assert forall|i: int| 0 <= i < m.len() implies key_lt(k, #[trigger] m[i].0) by {
                if i > 0 {
                    assert(m[i] == t[i - 1]);
                }
            }
        } else if a[0].0 == b[0].0 {
            lemma_merge2_all_after(a.skip(1), b.skip(1), k);
            let t = merge2(a.skip(1), b.skip(1));
            assert forall|i: int| 0 <= i < m.len() implies key_lt(k, #[trigger] m[i].0) by {
                if i > 0 {
                    assert(m[i] == t[i - 1]);
                }
            }
        } else {
            lemma_merge2_all_after(a, b.skip(1), k);
            let t = merge2(a, b.skip(1));
            assert forall|i: int| 0 <= i < m.len() implies key_lt(k, #[trigger] m[i].0) by {
                if i > 0 {
                    assert(m[i] == t[i - 1]);
                }
            }
        }
    }
}

/// The merge of two sorted runs is sorted: it holds each key once.
pub proof fn lemma_merge2_sorted(a: Seq<Entry>, b: Seq<Entry>)
    requires
        sorted(a),
        sorted(b),
    ensures
        sorted(merge2(a, b)),
    decreases a.len() + b.len(),
{
    if a.len() == 0 || b.len() == 0 {
    } else {
        lemma_sorted_tail(a);
        lemma_sorted_tail(b);
        lemma_key_lt_total(a[0].0, b[0].0);
        if key_lt(a[0].0, b[0].0) {
            lemma_merge2_sorted(a.skip(1), b);
            assert forall|i: int| 0 <= i < b.len() implies key_lt(a[0].0, #[trigger] b[i].0) by {
                if i > 0 {
                    lemma_key_lt_transitive(a[0].0, b[0].0, b[i].0);
                }
            }
            lemma_merge2_all_after(a.skip(1), b, a[0].0);
            lemma_sorted_cons(a[0], merge2(a.skip(1), b));
        } else if a[0].0 == b[0].0 {
            lemma_merge2_sorted(a.skip(1), b.skip(1));
            lemma_merge2_all_after(a.skip(1), b.skip(1), a[0].0);
            lemma_sorted_cons(a[0], merge2(a.skip(1), b.skip(1)));
        } else {
            lemma_merge2_sorted(a, b.skip(1));
            assert forall|i: int| 0 <= i < a.len() implies key_lt(b[0].0, #[trigger] a[i].0) by {
                if i > 0 {
                    lemma_key_lt_transitive(b[0].0, a[0].0, a[i].0);
                }
            }
            lemma_merge2_all_after(a, b.skip(1), b[0].0);
            lemma_sorted_cons(b[0], merge2(a, b.skip(1)));
        }
    }
}

/// Every run is sorted.
pub open spec fn all_sorted(runs: Seq<Seq<Entry>>) -> bool {
    forall|j: int| 0 <= j < runs.len() ==> sorted(#[trigger] runs[j])
}

/// The merge of sorted runs is sorted: each key is given once.
pub proof fn lemma_merge_n_sorted(runs: Seq<Seq<Entry>>)
    requires
        all_sorted(runs),
    ensures
        sorted(merge_n(runs)),
    decreases runs.len(),
{
    if runs.len() > 0 {
        let rest = runs.skip(1);
        assert forall|j: int| 0 <= j < rest.len() implies sorted(#[trigger] rest[j]) by {
            assert(rest[j] == runs[j + 1]);
        }
        lemma_merge_n_sorted(rest);
        assert(sorted(runs[0]));
        lemma_merge2_sorted(runs[0], merge_n(rest));
    }
}

/// What a merge of sorted runs holds for a key is what the first run that
/// holds the key has for it: the run with the smallest index wins.
pub proof fn lemma_lookup_merge_n(runs: Seq<Seq<Entry>>, k: Seq<u8>)
    requires
        all_sorted(runs),
    ensures
        lookup(merge_n(runs), k) == first_hit(runs, k),
    decreases runs.len(),
{
    if runs.len() > 0 {
        let rest = runs.skip(1);
        assert forall|j: int| 0 <= j < rest.len() implies sorted(#[trigger] rest[j]) by {
            assert(rest[j] == runs[j + 1]);
        }
        lemma_merge_n_sorted(rest);
        lemma_lookup_merge_n(rest, k);
        assert(sorted(runs[0]));
        lemma_lookup_merge2(runs[0], merge_n(rest), k);
    }
}

/// A run followed by another, without tombstones, is the first without
/// tombstones followed by the second without tombstones.
pub proof fn lemma_live_concat(a: Seq<Entry>, b: Seq<Entry>)
    ensures
        live(a + b) == live(a) + live(b),
    decreases a.len(),
{
    if a.len() == 0 {
        assert(a + b =~= b);
        assert(live(a) + live(b) =~= live(b));
    } else {
        assert((a + b)[0] == a[0]);
        assert((a + b).skip(1) =~= a.skip(1) + b);
        lemma_live_concat(a.skip(1), b);
        if a[0].1.len() > 0 {
            assert(seq![a[0]] + (live(a.skip(1)) + live(b)) =~= (seq![a[0]] + live(a.skip(1)))
                + live(b));
        }
    }
}

/// The first entries of a run, without tombstones, are the first entries
/// of the run without tombstones; one more entry adds itself to them unless
/// it is a tombstone.
pub proof fn lemma_live_take(s: Seq<Entry>, i: int)
    requires
        0 <= i <= s.len(),
    ensures
        live(s.take(i)).len() <= live(s).len(),
        live(s).take(live(s.take(i)).len() as int) == live(s.take(i)),
        i < s.len() ==> live(s.take(i + 1)) == if s[i].1.len() == 0 {
            live(s.take(i))
        } else {
            live(s.take(i)).push(s[i])
        },
{
    lemma_live_concat(s.take(i), s.skip(i));
    assert(s.take(i) + s.skip(i) =~= s);
    assert((live(s.take(i)) + live(s.skip(i))).take(live(s.take(i)).len() as int) =~= live(
        s.take(i),
    ));
    if i < s.len() {
        let e = s[i];
        lemma_live_concat(s.take(i), seq![e]);
        assert(s.take(i) + seq![e] =~= s.take(i + 1));
        assert(seq![e].skip(1) =~= Seq::<Entry>::empty());
        assert(live(seq![e].skip(1)) =~= Seq::<Entry>::empty());
        if e.1.len() == 0 {
            assert(live(s.take(i)) + live(seq![e]) =~= live(s.take(i)));
        } else {
            assert(live(seq![e]) =~= seq![e]);
            assert(live(s.take(i)) + seq![e] =~= live(s.take(i)).push(e));
        }
    }
}

/// A run without tombstones holds for a key what the run holds for it,
/// unless that is a tombstone.
pub proof fn lemma_lookup_live(s: Seq<Entry>, k: Seq<u8>)
    requires
        sorted(s),
    ensures
        lookup(live(s), k) == if lookup(s, k) is Some && lookup(s, k)->0.len() > 0 {
            lookup(s, k)
        } else {
            None
        },
    decreases s.len(),
{
    if s.len() > 0 {
        lemma_sorted_tail(s);
        lemma_lookup_live(s.skip(1), k);
        if s[0].0 == k {
            lemma_lookup_before(s.skip(1), k, s[0].0);
        }
        if s[0].1.len() > 0 {
            assert((seq![s[0]] + live(s.skip(1))).skip(1) =~= live(s.skip(1)));
        }
    }
}

/// Every key of the live part of a run whose keys sort after `k` sorts after `k`.
pub proof fn lemma_live_all_after(s: Seq<Entry>, k: Seq<u8>)
    requires
        all_after(s, k),
    ensures
        all_after(live(s), k),
    decreases s.len(),
{
    if s.len() > 0 {
        assert forall|i: int| 0 <= i < s.skip(1).len() implies key_lt(
            k,
            #[trigger] s.skip(1)[i].0,
        ) by {
            assert(s.skip(1)[i] == s[i + 1]);
        }
        lemma_live_all_after(s.skip(1), k);
        let t = live(s.skip(1));
        let l = live(s);
        if s[0].1.len() > 0 {
            assert forall|i: int| 0 <= i < l.len() implies key_lt(k, #[trigger] l[i].0) by {
                if i > 0 {
                    assert(l[i] == t[i - 1]);
                } else {
                    assert(l[0] == s[0]);
                }
            }
        }
    }
}

/// The live part of a sorted run is sorted, and none of its values is empty.
pub proof fn lemma_live_sorted(s: Seq<Entry>)
    requires
        sorted(s),
    ensures
        sorted(live(s)),
        forall|i: int| 0 <= i < live(s).len() ==> (#[trigger] live(s)[i]).1.len() > 0,
    decreases s.len(),
{
    lemma_live_no_tombstone(s);
    if s.len() > 0 {
        lemma_sorted_tail(s);
        lemma_live_sorted(s.skip(1));
        if s[0].1.len() > 0 {
            lemma_live_all_after(s.skip(1), s[0].0);
            lemma_sorted_cons(s[0], live(s.skip(1)));
        }
    }
}

/// No value of the live part of a run is empty.
pub proof fn lemma_live_no_tombstone(s: Seq<Entry>)
    ensures
        forall|i: int| 0 <= i < live(s).len() ==> (#[trigger] live(s)[i]).1.len() > 0,
    decreases s.len(),
{
    if s.len() > 0 {
        lemma_live_no_tombstone(s.skip(1));
        let t = live(s.skip(1));
        let l = live(s);
        if s[0].1.len() > 0 {
            assert forall|i: int| 0 <= i < l.len() implies (#[trigger] l[i]).1.len() > 0 by {
                if i > 0 {
                    assert(l[i] == t[i - 1]);
                } else {
                    assert(l[0] == s[0]);
                }
            }
        }
    }
}

/// A sorted run followed by a sorted run of later keys is a sorted run.
pub proof fn lemma_sorted_concat(a: Seq<Entry>, b: Seq<Entry>)
    requires
        sorted(a),
        sorted(b),
        a.len() > 0 && b.len() > 0 ==> key_lt(a.last().0, b[0].0),
    ensures
        sorted(a + b),
{
    let t = a + b;
    assert forall|i: int, j: int| 0 <= i < j < t.len() implies key_lt(
        #[trigger] t[i].0,
        #[trigger] t[j].0,
    ) by {
        if i < a.len() && j >= a.len() {
            let jb = j - a.len();
            assert(t[j] == b[jb]);
            if i < a.len() - 1 {
                assert(key_lt(a[i].0, a[a.len() - 1].0));
                lemma_key_lt_transitive(a[i].0, a.last().0, b[0].0);
            }
            if jb > 0 {
                assert(key_lt(b[0].0, b[jb].0));
                lemma_key_lt_transitive(a[i].0, b[0].0, b[jb].0);
            }
        } else if i >= a.len() {
            assert(t[i] == b[i - a.len()]);
            assert(t[j] == b[j - a.len()]);
        }
    }
}

/// The lower bound in a run followed by another lies in the first run, or
/// past all of it at the lower bound of the second.
pub proof fn lemma_lower_bound_concat(a: Seq<Entry>, b: Seq<Entry>, k: Seq<u8>)
    ensures
        lower_bound(a + b, k) == if lower_bound(a, k) < a.len() {
            lower_bound(a, k)
        } else {
            a.len() + lower_bound(b, k)
        },
    decreases a.len(),
{
    lemma_lower_bound(a, k);
    if a.len() == 0 {
        assert(a + b =~= b);
    } else {
        assert((a + b)[0] == a[0]);
        assert((a + b).skip(1) =~= a.skip(1) + b);
        if key_lt(a[0].0, k) {
            lemma_lower_bound_concat(a.skip(1), b, k);
            lemma_lower_bound(a.skip(1), k);
        }
    }
}

/// The blocks from the i-th on, laid end to end.
pub open spec fn concat_from(blocks: Seq<Seq<Entry>>, i: int) -> Seq<Entry>
    decreases blocks.len() - i,
{
    if i < 0 || i >= blocks.len() {
        Seq::empty()
    } else {
        blocks[i] + concat_from(blocks, i + 1)
    }
}

/// All blocks laid end to end.
pub open spec fn concat(blocks: Seq<Seq<Entry>>) -> Seq<Entry> {
    concat_from(blocks, 0)
}

/// Every block has entries and is sorted, and each block ends before the next starts.
pub open spec fn blocks_ordered(blocks: Seq<Seq<Entry>>) -> bool {
    &&& forall|i: int|
        0 <= i < blocks.len() ==> (#[trigger] blocks[i]).len() > 0 && sorted(blocks[i])
    &&& forall|i: int|
        0 <= i < blocks.len() - 1 ==> key_lt(
            (#[trigger] blocks[i]).last().0,
            blocks[i + 1][0].0,
        )
}

/// In ordered blocks an earlier block ends before a later one starts.
pub proof fn lemma_blocks_chain(blocks: Seq<Seq<Entry>>, i: int, j: int)
    requires
        blocks_ordered(blocks),
        0 <= i < j < blocks.len(),
    ensures
        key_lt(blocks[i].last().0, blocks[j][0].0),
        key_lt(blocks[i][0].0, blocks[j][0].0),
    decreases j - i,
{
    let bi = blocks[i];
    assert(bi.len() > 0 && sorted(bi));
    if i + 1 < j {
        lemma_blocks_chain(blocks, i, j - 1);
        let bm = blocks[j - 1];
        assert(bm.len() > 0 && sorted(bm));
        assert(key_lt(bm.last().0, blocks[j - 1 + 1][0].0));
        if bm.len() > 1 {
            assert(key_lt(bm[0].0, bm[bm.len() - 1].0));
            lemma_key_lt_transitive(bi.last().0, bm[0].0, bm.last().0);
        }
        lemma_key_lt_transitive(bi.last().0, bm.last().0, blocks[j][0].0);
    } else {
        assert(key_lt(bi.last().0, blocks[i + 1][0].0));
    }
    if bi.len() > 1 {
        assert(key_lt(bi[0].0, bi[bi.len() - 1].0));
        lemma_key_lt_transitive(bi[0].0, bi.last().0, blocks[j][0].0);
    }
}

/// Ordered blocks laid end to end are a sorted run.
pub proof fn lemma_concat_sorted(blocks: Seq<Seq<Entry>>, i: int)
    requires
        blocks_ordered(blocks),
        0 <= i <= blocks.len(),
    ensures
        sorted(concat_from(blocks, i)),
        i < blocks.len() ==> concat_from(blocks, i).len() > 0 && concat_from(blocks, i)[0]
            == blocks[i][0],
    decreases blocks.len() - i,
{
    if i < blocks.len() {
        lemma_concat_sorted(blocks, i + 1);
        assert(blocks[i].len() > 0 && sorted(blocks[i]));
        if i + 1 < blocks.len() {
            assert(key_lt(blocks[i].last().0, blocks[i + 1][0].0));
        }
        lemma_sorted_concat(blocks[i], concat_from(blocks, i + 1));
    }
}

/// A position in ordered blocks that is the lower bound of `k` in its block,
/// in a block that starts at or before `k` while the next starts after `k`,
/// is the lower bound of `k` in the blocks laid end to end.
pub proof fn lemma_seek_position(blocks: Seq<Seq<Entry>>, j: int, i: int, k: Seq<u8>)
    requires
        blocks_ordered(blocks),
        0 <= j <= i < blocks.len(),
        i > 0 ==> key_le(blocks[i][0].0, k),
        i + 1 < blocks.len() ==> key_lt(k, blocks[i + 1][0].0),
    ensures
        concat_from(blocks, j).skip(lower_bound(concat_from(blocks, j), k)) == blocks[i].skip(
            lower_bound(blocks[i], k),
        ) + concat_from(blocks, i + 1),
    decreases i - j,
{
    let a = blocks[j];
    let b = concat_from(blocks, j + 1);
    lemma_lower_bound_concat(a, b, k);
    lemma_lower_bound(a, k);
    lemma_lower_bound(b, k);
    if j < i {
        lemma_blocks_chain(blocks, j, i);
        assert(a.len() > 0 && sorted(a));
        assert forall|x: int| 0 <= x < a.len() implies key_lt(#[trigger] a[x].0, k) by {
            if x < a.len() - 1 {
                assert(key_lt(a[x].0, a[a.len() - 1].0));
                lemma_key_lt_transitive(a[x].0, a.last().0, blocks[i][0].0);
            }
            crate::key::lemma_key_lt_le(a[x].0, blocks[i][0].0, k);
        }
        lemma_lower_bound_unique(a, k, a.len() as int);
        lemma_seek_position(blocks, j + 1, i, k);
        assert((a + b).skip(a.len() + lower_bound(b, k)) =~= b.skip(lower_bound(b, k)));
    } else {
        let p = lower_bound(a, k);
        if p < a.len() {
            assert((a + b).skip(p) =~= a.skip(p) + b);
        } else {
            if i + 1 < blocks.len() {
                lemma_concat_sorted(blocks, i + 1);
                lemma_key_lt_total(k, b[0].0);
            }
            assert(lower_bound(b, k) == 0);
            assert((a + b).skip(a.len() as int) =~= a.skip(p) + b);
        }
    }
}

/// Every key of every block is non-empty and at most 65535 bytes long.
pub open spec fn blocks_bounded(blocks: Seq<Seq<Entry>>) -> bool {
    forall|i: int| 0 <= i < blocks.len() ==> keys_bounded(#[trigger] blocks[i])
}

/// Blocks with bounded keys laid end to end have bounded keys.
pub proof fn lemma_concat_bounded(blocks: Seq<Seq<Entry>>, i: int)
    requires
        blocks_bounded(blocks),
        0 <= i <= blocks.len(),
    ensures
        keys_bounded(concat_from(blocks, i)),
    decreases blocks.len() - i,
{
    if i < blocks.len() {
        lemma_concat_bounded(blocks, i + 1);
        let a = blocks[i];
        let b = concat_from(blocks, i + 1);
        assert(keys_bounded(a));
        assert forall|x: int| 0 <= x < (a + b).len() implies 1 <= (#[trigger] (a + b)[x]).0.len()
            <= 0xFFFF by {
            if x >= a.len() {
                assert((a + b)[x] == b[x - a.len()]);
            } else {
                assert((a + b)[x] == a[x]);
            }
        }
    }
}

/// Blocks with one more block at the end, laid end to end, are the blocks laid
/// end to end followed by that block.
pub proof fn lemma_concat_push(blocks: Seq<Seq<Entry>>, last: Seq<Entry>, i: int)
    requires
        0 <= i <= blocks.len(),
    ensures
        concat_from(blocks.push(last), i) == concat_from(blocks, i) + last,
    decreases blocks.len() - i,
{
    let ext = blocks.push(last);
    if i < blocks.len() {
        lemma_concat_push(blocks, last, i + 1);
        assert(ext[i] == blocks[i]);
        assert(concat_from(ext, i) =~= concat_from(blocks, i) + last);
    } else {
        assert(concat_from(ext, i + 1) =~= Seq::<Entry>::empty());
        assert(concat_from(ext, i) =~= concat_from(blocks, i) + last);
    }
}

/// Blocks that all have entries, laid end to end, end with the last entry of
/// the last block.
pub proof fn lemma_concat_last(blocks: Seq<Seq<Entry>>, i: int)
    requires
        forall|j: int| 0 <= j < blocks.len() ==> (#[trigger] blocks[j]).len() > 0,
        0 <= i < blocks.len(),
    ensures
        concat_from(blocks, i).len() > 0,
        concat_from(blocks, i).last() == blocks.last().last(),
    decreases blocks.len() - i,
{
    assert(blocks[i].len() > 0);
    if i + 1 < blocks.len() {
        lemma_concat_last(blocks, i + 1);
    } else {
        assert(concat_from(blocks, i + 1) =~= Seq::<Entry>::empty());
        assert(concat_from(blocks, i) =~= blocks[i]);
    }
}

/// The run with `v` stored under `k`: in place of the entry for `k` if there
/// is one, else at the place that keeps the run sorted.
pub open spec fn upsert(s: Seq<Entry>, k: Seq<u8>, v: Seq<u8>) -> Seq<Entry>
    decreases s.len(),
{
    if s.len() == 0 {
        seq![(k, v)]
    } else if key_lt(s[0].0, k) {
        seq![s[0]] + upsert(s.skip(1), k, v)
    } else if s[0].0 == k {
        seq![(k, v)] + s.skip(1)
    } else {
        seq![(k, v)] + s
    }
}

/// After `v` is stored under `k`, the run holds `v` for `k` and for every
/// other key what it held before.
pub proof fn lemma_upsert_lookup(s: Seq<Entry>, k: Seq<u8>, v: Seq<u8>, other: Seq<u8>)
    ensures
        lookup(upsert(s, k, v), other) == if other == k {
            Some(v)
        } else {
            lookup(s, other)
        },
    decreases s.len(),
{
    let u = upsert(s, k, v);
    if s.len() == 0 {
        assert(u.skip(1) =~= s);
    } else if key_lt(s[0].0, k) {
        lemma_key_lt_irreflexive(k);
        lemma_upsert_lookup(s.skip(1), k, v, other);
        assert(u.skip(1) =~= upsert(s.skip(1), k, v));
    } else if s[0].0 == k {
        assert(u.skip(1) =~= s.skip(1));
    } else {
        assert(u.skip(1) =~= s);
    }
}

/// Storing under a key that sorts after `bound` in a run of keys that sort
/// after `bound` gives such a run.
pub proof fn lemma_upsert_all_after(s: Seq<Entry>, k: Seq<u8>, v: Seq<u8>, bound: Seq<u8>)
    requires
        all_after(s, bound),
        key_lt(bound, k),
    ensures
        all_after(upsert(s, k, v), bound),
    decreases s.len(),
{
    let u = upsert(s, k, v);
    if s.len() == 0 {
    } else {
        assert forall|i: int| 0 <= i < s.skip(1).len() implies key_lt(
            bound,
            #[trigger] s.skip(1)[i].0,
        ) by {
            assert(s.skip(1)[i] == s[i + 1]);
        }
        if key_lt(s[0].0, k) {
            lemma_upsert_all_after(s.skip(1), k, v, bound);
            let t = upsert(s.skip(1), k, v);
            assert forall|i: int| 0 <= i < u.len() implies key_lt(bound, #[trigger] u[i].0) by {
                if i > 0 {
                    assert(u[i] == t[i - 1]);
                } else {
                    assert(u[0] == s[0]);
                }
            }
        } else if s[0].0 == k {
            assert forall|i: int| 0 <= i < u.len() implies key_lt(bound, #[trigger] u[i].0) by {
                if i > 0 {
                    assert(u[i] == s.skip(1)[i - 1]);
                }
            }
        } else {
            assert forall|i: int| 0 <= i < u.len() implies key_lt(bound, #[trigger] u[i].0) by {
                if i > 0 {
                    assert(u[i] == s[i - 1]);
                }
            }
        }
    }
}

/// Storing into a sorted run gives a sorted run.
pub proof fn lemma_upsert_sorted(s: Seq<Entry>, k: Seq<u8>, v: Seq<u8>)
    requires
        sorted(s),
    ensures
        sorted(upsert(s, k, v)),
    decreases s.len(),
{
    if s.len() == 0 {
    } else {
        lemma_sorted_tail(s);
        if key_lt(s[0].0, k) {
            lemma_upsert_sorted(s.skip(1), k, v);
            lemma_upsert_all_after(s.skip(1), k, v, s[0].0);
            lemma_sorted_cons(s[0], upsert(s.skip(1), k, v));
        } else if s[0].0 == k {
            lemma_sorted_cons((k, v), s.skip(1));
        } else {
            lemma_key_lt_total(s[0].0, k);
            assert forall|i: int| 0 <= i < s.len() implies key_lt(k, #[trigger] s[i].0) by {
                if i > 0 {
                    lemma_key_lt_transitive(k, s[0].0, s[i].0);
                }
            }
            lemma_sorted_cons((k, v), s);
        }
    }
}

/// Storing under `k` replaces the entry at the lower bound of `k` if that
/// entry has key `k`, and else inserts there.
pub proof fn lemma_upsert_at(s: Seq<Entry>, k: Seq<u8>, v: Seq<u8>)
    ensures
        upsert(s, k, v) == if lower_bound(s, k) < s.len() && s[lower_bound(s, k)].0 == k {
            s.update(lower_bound(s, k), (k, v))
        } else {
            s.insert(lower_bound(s, k), (k, v))
        },
    decreases s.len(),
{
    lemma_lower_bound(s, k);
    let i = lower_bound(s, k);
    let u = upsert(s, k, v);
    if s.len() == 0 {
        assert(u =~= s.insert(0, (k, v)));
    } else if key_lt(s[0].0, k) {
        lemma_upsert_at(s.skip(1), k, v);
        lemma_lower_bound(s.skip(1), k);
        let t = s.skip(1);
        let j = lower_bound(t, k);
        if j < t.len() && t[j].0 == k {
            assert(u =~= s.update(i, (k, v)));
        } else {
            assert(u =~= s.insert(i, (k, v)));
        }
    } else if s[0].0 == k {
        assert(u =~= s.update(0, (k, v)));
    } else {
        assert(u =~= s.insert(0, (k, v)));
    }
}

/// In a sorted run, what is held for `k` is the value of the entry at the
/// lower bound of `k`, if that entry has key `k`.
pub proof fn lemma_lookup_at_lower_bound(s: Seq<Entry>, k: Seq<u8>)
    requires
        sorted(s),
    ensures
        lookup(s, k) == if lower_bound(s, k) < s.len() && s[lower_bound(s, k)].0 == k {
            Some(s[lower_bound(s, k)].1)
        } else {
            None
        },
{
    lemma_lower_bound(s, k);
    lemma_lower_bound_sorted(s, k);
    lemma_lookup_index(s, k);
    let i = lower_bound(s, k);
    if i < s.len() && s[i].0 == k {
        lemma_lookup_sorted(s, i);
    } else if lookup(s, k) is Some {
        let j = choose|j: int| 0 <= j < s.len() && (#[trigger] s[j]).0 == k && s[j].1 == lookup(s, k)->0;
        lemma_key_lt_irreflexive(k);
        if j < i {
            assert(key_lt(s[j].0, k));
        } else if j > i {
            assert(key_lt(s[i].0, s[j].0));
            assert(key_le(k, s[i].0));
            lemma_key_lt_total(k, s[i].0);
        }
    }
}

/// Where the runs before the i-th all end before `k` and the i-th, if there
/// is one, has an entry at or after `k`, the lower bound of `k` in the runs
/// laid end to end lies in the i-th run, at the lower bound of `k` there.
pub proof fn lemma_seek_run(runs: Seq<Seq<Entry>>, j: int, i: int, k: Seq<u8>)
    requires
        0 <= j <= i <= runs.len(),
        forall|x: int|
            j <= x < i ==> sorted(#[trigger] runs[x]) && runs[x].len() > 0 && key_lt(
                runs[x].last().0,
                k,
            ),
        i < runs.len() ==> lower_bound(runs[i], k) < runs[i].len(),
    ensures
        concat_from(runs, j).skip(lower_bound(concat_from(runs, j), k)) == if i < runs.len() {
            runs[i].skip(lower_bound(runs[i], k)) + concat_from(runs, i + 1)
        } else {
            Seq::<Entry>::empty()
        },
    decreases i - j,
{
    if j < i {
        let a = runs[j];
        let b = concat_from(runs, j + 1);
        lemma_lower_bound_concat(a, b, k);
        lemma_lower_bound(b, k);
        assert(sorted(a) && a.len() > 0 && key_lt(a.last().0, k));
        assert forall|x: int| 0 <= x < a.len() implies key_lt(#[trigger] a[x].0, k) by {
            if x < a.len() - 1 {
                assert(key_lt(a[x].0, a[a.len() - 1].0));
                lemma_key_lt_transitive(a[x].0, a.last().0, k);
            }
        }
        lemma_lower_bound_unique(a, k, a.len() as int);
        lemma_seek_run(runs, j + 1, i, k);
        assert((a + b).skip(a.len() + lower_bound(b, k)) =~= b.skip(lower_bound(b, k)));
    } else if i < runs.len() {
        let a = runs[i];
        let b = concat_from(runs, i + 1);
        lemma_lower_bound_concat(a, b, k);
        lemma_lower_bound(a, k);
        assert((a + b).skip(lower_bound(a, k)) =~= a.skip(lower_bound(a, k)) + b);
    } else {
        assert(concat_from(runs, j).skip(0) =~= Seq::<Entry>::empty());
    }
}

/// A sorted run whose last key is at or after `k` has an entry at the lower
/// bound of `k`.
pub proof fn lemma_lower_bound_within(s: Seq<Entry>, k: Seq<u8>)
    requires
        s.len() > 0,
        key_le(k, s.last().0),
    ensures
        lower_bound(s, k) < s.len(),
{
    lemma_lower_bound(s, k);
    if lower_bound(s, k) == s.len() {
        assert(key_lt(s[s.len() - 1].0, k));
        lemma_key_lt_total(k, s.last().0);
    }
}

/// The first hit in runs with one more run at the end is the first hit in
/// the runs, or else what the new run holds.
pub proof fn lemma_first_hit_push(runs: Seq<Seq<Entry>>, r: Seq<Entry>, k: Seq<u8>)
    ensures
        first_hit(runs.push(r), k) == if first_hit(runs, k) is Some {
            first_hit(runs, k)
        } else {
            lookup(r, k)
        },
    decreases runs.len(),
{
    let ext = runs.push(r);
    if runs.len() == 0 {
        assert(ext.skip(1) =~= Seq::<Seq<Entry>>::empty());
        assert(ext[0] == r);
        assert(first_hit(ext.skip(1), k) is None);
    } else {
        assert(ext[0] == runs[0]);
        assert(ext.skip(1) =~= runs.skip(1).push(r));
        lemma_first_hit_push(runs.skip(1), r, k);
    }
}

/// The first hit in runs with one more run at the front is what the new run
/// holds, or else the first hit in the runs.
pub proof fn lemma_first_hit_cons(r: Seq<Entry>, runs: Seq<Seq<Entry>>, k: Seq<u8>)
    ensures
        first_hit(seq![r] + runs, k) == if lookup(r, k) is Some {
            lookup(r, k)
        } else {
            first_hit(runs, k)
        },
{
    assert((seq![r] + runs).skip(1) =~= runs);
}

/// A sorted run holds nothing for a key before its first or after its last key.
pub proof fn lemma_lookup_outside(s: Seq<Entry>, k: Seq<u8>)
    requires
        sorted(s),
        s.len() > 0,
        key_lt(k, s[0].0) || key_lt(s.last().0, k),
    ensures
        lookup(s, k) is None,
{
    lemma_lookup_index(s, k);
    if lookup(s, k) is Some {
        let i = choose|i: int| 0 <= i < s.len() && (#[trigger] s[i]).0 == k && s[i].1 == lookup(s, k)->0;
        lemma_key_lt_irreflexive(k);
        if key_lt(k, s[0].0) {
            if i > 0 {
                assert(key_lt(s[0].0, s[i].0));
                lemma_key_lt_transitive(k, s[0].0, k);
            }
        } else {
            if i < s.len() - 1 {
                assert(key_lt(s[i].0, s[s.len() - 1].0));
                lemma_key_lt_transitive(k, s.last().0, k);
            }
        }
    }
}

/// From the lower bound of `k` on, a sorted run holds for `k` what the whole
/// run holds, and that is the value of its first entry if that has key `k`.
pub proof fn lemma_lookup_skip(s: Seq<Entry>, k: Seq<u8>)
    requires
        sorted(s),
    ensures
        lookup(s.skip(lower_bound(s, k)), k) == lookup(s, k),
        lookup(s, k) == if s.skip(lower_bound(s, k)).len() > 0 && s.skip(lower_bound(s, k))[0].0
            == k {
            Some(s.skip(lower_bound(s, k))[0].1)
        } else {
            None
        },
        sorted(s.skip(lower_bound(s, k))),
        s.skip(lower_bound(s, k)).len() > 0 ==> key_le(k, s.skip(lower_bound(s, k))[0].0),
{
    lemma_lower_bound(s, k);
    lemma_lower_bound_sorted(s, k);
    lemma_lookup_at_lower_bound(s, k);
    let p = lower_bound(s, k);
    let t = s.skip(p);
    lemma_sorted_subrange(s, p, s.len() as int);
    assert(t =~= s.subrange(p, s.len() as int));
    if t.len() > 0 {
        assert(t[0] == s[p]);
        lemma_key_lt_total(t[0].0, k);
    }
    lemma_lower_bound_unique(t, k, 0);
    lemma_lookup_at_lower_bound(t, k);
}

/// Where every run is sorted and starts at or after `k`, the first hit for
/// `k` is the value of the first entry of the merge, if that has key `k`.
pub proof fn lemma_merge_n_point(runs: Seq<Seq<Entry>>, k: Seq<u8>)
    requires
        all_sorted(runs),
        forall|j: int|
            0 <= j < runs.len() && (#[trigger] runs[j]).len() > 0 ==> key_le(k, runs[j][0].0),
    ensures
        first_hit(runs, k) == if merge_n(runs).len() > 0 && merge_n(runs)[0].0 == k {
            Some(merge_n(runs)[0].1)
        } else {
            None
        },
{
    let m = merge_n(runs);
    lemma_lookup_merge_n(runs, k);
    lemma_merge_n_sorted(runs);
    if m.len() > 0 && m[0].0 != k {
        lemma_winner(runs);
        let w = winner(runs);
        if w < 0 {
            lemma_merge_n_empty(runs);
        } else {
            lemma_merge_n_head(runs, w);
            assert(key_le(k, runs[w][0].0));
            lemma_lookup_outside(m, k);
        }
    }
}

/// Every entry satisfies `p`.
pub open spec fn each(s: Seq<Entry>, p: spec_fn(Entry) -> bool) -> bool {
    forall|i: int| 0 <= i < s.len() ==> p(#[trigger] s[i])
}

/// The key is non-empty, and key and value are at most 65535 bytes long.
pub open spec fn fits(e: Entry) -> bool {
    1 <= e.0.len() <= 0xFFFF && e.1.len() <= 0xFFFF
}

/// What holds of every entry of two runs holds of every entry of their merge.
pub proof fn lemma_merge2_each(a: Seq<Entry>, b: Seq<Entry>, p: spec_fn(Entry) -> bool)
    requires
        each(a, p),
        each(b, p),
    ensures
        each(merge2(a, b), p),
    decreases a.len() + b.len(),
{
    if a.len() == 0 || b.len() == 0 {
    } else {
        assert forall|i: int| 0 <= i < a.skip(1).len() implies p(#[trigger] a.skip(1)[i]) by {
            assert(a.skip(1)[i] == a[i + 1]);
        }
        assert forall|i: int| 0 <= i < b.skip(1).len() implies p(#[trigger] b.skip(1)[i]) by {
            assert(b.skip(1)[i] == b[i + 1]);
        }
        let m = merge2(a, b);
        let t = if key_lt(a[0].0, b[0].0) {
            lemma_merge2_each(a.skip(1), b, p);
            merge2(a.skip(1), b)
        } else if a[0].0 == b[0].0 {
            lemma_merge2_each(a.skip(1), b.skip(1), p);
            merge2(a.skip(1), b.skip(1))
        } else {
            lemma_merge2_each(a, b.skip(1), p);
            merge2(a, b.skip(1))
        };
        assert forall|i: int| 0 <= i < m.len() implies p(#[trigger] m[i]) by {
            if i > 0 {
                assert(m[i] == t[i - 1]);
            } else {
                assert(m[0] == a[0] || m[0] == b[0]);
            }
        }
    }
}

/// What holds of every entry of a run holds of every entry of its live part.
pub proof fn lemma_live_each(s: Seq<Entry>, p: spec_fn(Entry) -> bool)
    requires
        each(s, p),
    ensures
        each(live(s), p),
    decreases s.len(),
{
    if s.len() > 0 {
        assert forall|i: int| 0 <= i < s.skip(1).len() implies p(#[trigger] s.skip(1)[i]) by {
            assert(s.skip(1)[i] == s[i + 1]);
        }
        lemma_live_each(s.skip(1), p);
        let t = live(s.skip(1));
        let l = live(s);
        if s[0].1.len() > 0 {
            assert forall|i: int| 0 <= i < l.len() implies p(#[trigger] l[i]) by {
                if i > 0 {
                    assert(l[i] == t[i - 1]);
                } else {
                    assert(l[0] == s[0]);
                }
            }
        }
    }
}

/// What holds of every entry of every run holds of every entry of their merge.
pub proof fn lemma_merge_n_each(runs: Seq<Seq<Entry>>, p: spec_fn(Entry) -> bool)
    requires
        forall|j: int| 0 <= j < runs.len() ==> each(#[trigger] runs[j], p),
    ensures
        each(merge_n(runs), p),
    decreases runs.len(),
{
    if runs.len() > 0 {
        let rest = runs.skip(1);
        assert forall|j: int| 0 <= j < rest.len() implies each(#[trigger] rest[j], p) by {
            assert(rest[j] == runs[j + 1]);
        }
        lemma_merge_n_each(rest, p);
        assert(each(runs[0], p));
        lemma_merge2_each(runs[0], merge_n(rest), p);
    }
}

/// What holds of every entry of every block holds of every entry of the
/// blocks laid end to end.
pub proof fn lemma_concat_each(blocks: Seq<Seq<Entry>>, i: int, p: spec_fn(Entry) -> bool)
    requires
        forall|j: int| 0 <= j < blocks.len() ==> each(#[trigger] blocks[j], p),
        0 <= i <= blocks.len(),
    ensures
        each(concat_from(blocks, i), p),
    decreases blocks.len() - i,
{
    if i < blocks.len() {
        lemma_concat_each(blocks, i + 1, p);
        let a = blocks[i];
        let b = concat_from(blocks, i + 1);
        assert(each(a, p));
        assert forall|x: int| 0 <= x < (a + b).len() implies p(#[trigger] (a + b)[x]) by {
            if x >= a.len() {
                assert((a + b)[x] == b[x - a.len()]);
            } else {
                assert((a + b)[x] == a[x]);
            }
        }
    }
}

/// What a run followed by another holds for a key is what the first holds,
/// or else what the second holds.
pub proof fn lemma_lookup_concat(a: Seq<Entry>, b: Seq<Entry>, k: Seq<u8>)
    ensures
        lookup(a + b, k) == if lookup(a, k) is Some {
            lookup(a, k)
        } else {
            lookup(b, k)
        },
    decreases a.len(),
{
    if a.len() == 0 {
        assert(a + b =~= b);
    } else {
        assert((a + b)[0] == a[0]);
        assert((a + b).skip(1) =~= a.skip(1) + b);
        lemma_lookup_concat(a.skip(1), b, k);
    }
}

/// What blocks laid end to end hold for a key is the first hit in the blocks.
pub proof fn lemma_first_hit_concat(blocks: Seq<Seq<Entry>>, i: int, k: Seq<u8>)
    requires
        0 <= i <= blocks.len(),
    ensures
        lookup(concat_from(blocks, i), k) == first_hit(blocks.skip(i), k),
    decreases blocks.len() - i,
{
    if i < blocks.len() {
        lemma_first_hit_concat(blocks, i + 1, k);
        lemma_lookup_concat(blocks[i], concat_from(blocks, i + 1), k);
        assert(blocks.skip(i)[0] == blocks[i]);
        assert(blocks.skip(i).skip(1) =~= blocks.skip(i + 1));
    } else {
        assert(blocks.skip(i) =~= Seq::<Seq<Entry>>::empty());
    }
}

/// Blocks that all have entries and that, laid end to end, are a sorted run
/// are ordered.
pub proof fn lemma_chunks_ordered(blocks: Seq<Seq<Entry>>, i: int)
    requires
        0 <= i <= blocks.len(),
        forall|j: int| 0 <= j < blocks.len() ==> (#[trigger] blocks[j]).len() > 0,
        sorted(concat_from(blocks, i)),
    ensures
        forall|j: int| i <= j < blocks.len() ==> sorted(#[trigger] blocks[j]),
        forall|j: int|
            i <= j < blocks.len() - 1 ==> key_lt(
                (#[trigger] blocks[j]).last().0,
                blocks[j + 1][0].0,
            ),
    decreases blocks.len() - i,
{
    if i < blocks.len() {
        let a = blocks[i];
        let b = concat_from(blocks, i + 1);
        let s = a + b;
        assert(a.len() > 0);
        assert forall|x: int, y: int| 0 <= x < y < a.len() implies key_lt(
            #[trigger] a[x].0,
            #[trigger] a[y].0,
        ) by {
            assert(s[x] == a[x] && s[y] == a[y]);
        }
        assert forall|x: int, y: int| 0 <= x < y < b.len() implies key_lt(
            #[trigger] b[x].0,
            #[trigger] b[y].0,
        ) by {
            assert(s[a.len() + x] == b[x] && s[a.len() + y] == b[y]);
        }
        lemma_chunks_ordered(blocks, i + 1);
        if i + 1 < blocks.len() {
            assert(blocks[i + 1].len() > 0);
            assert(b[0] == blocks[i + 1][0]);
            assert(s[a.len() - 1] == a.last() && s[a.len() as int] == b[0]);
        }
    }
}

/// What a reader sees of what a layer holds: nothing where the value is a tombstone.
pub open spec fn visible(v: Option<Seq<u8>>) -> Option<Seq<u8>> {
    match v {
        Some(x) => if x.len() > 0 {
            Some(x)
        } else {
            None
        },
        None => None,
    }
}

/// The one if it is there, else the other.
pub open spec fn or_else(a: Option<Seq<u8>>, b: Option<Seq<u8>>) -> Option<Seq<u8>> {
    if a is Some {
        a
    } else {
        b
    }
}

/// Two sorted runs merged give each key once, in key order; for a key that
/// both hold, the entry of the first run is given, be it a tombstone, and
/// for a key that only one holds the entry of that run.
pub proof fn lemma_two_merge_first_wins(a: Seq<Entry>, b: Seq<Entry>, k: Seq<u8>)
    requires
        sorted(a),
        sorted(b),
    ensures
        sorted(merge2(a, b)),
        lookup(merge2(a, b), k) == or_else(lookup(a, k), lookup(b, k)),
{
    lemma_merge2_sorted(a, b);
    lemma_lookup_merge2(a, b, k);
}

/// Where only run `i` can hold the key, the first hit is what run `i` holds.
pub proof fn lemma_first_hit_only(runs: Seq<Seq<Entry>>, i: int, k: Seq<u8>)
    requires
        forall|j: int| 0 <= j < runs.len() && j != i ==> lookup(#[trigger] runs[j], k) is None,
    ensures
        first_hit(runs, k) == if 0 <= i < runs.len() {
            lookup(runs[i], k)
        } else {
            None
        },
    decreases runs.len(),
{
    if runs.len() > 0 {
        let rest = runs.skip(1);
        assert forall|j: int| 0 <= j < rest.len() && j != i - 1 implies lookup(
            #[trigger] rest[j],
            k,
        ) is None by {
            assert(rest[j] == runs[j + 1]);
        }
        lemma_first_hit_only(rest, i - 1, k);
        if i > 0 && i < runs.len() {
            assert(rest[i - 1] == runs[i]);
        }
    }
}

} // verus!
