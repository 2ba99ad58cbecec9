//! Bounds of a range of keys.

use crate::entries::{
    lemma_lookup_index, lemma_lookup_outside, lemma_lookup_sorted, lemma_lower_bound,
    lemma_lower_bound_sorted, lemma_sorted_subrange, lemma_sorted_tail,
    lookup, lower_bound, sorted, Entry,
};
use crate::key::{
    key_le, key_less, key_less_eq, key_lt, lemma_key_lt_irreflexive, lemma_key_lt_total,
    lemma_key_lt_transitive,
};
use vstd::prelude::*;

verus! {

/// One end of a range of keys.
pub enum Bound {
    /// The range reaches the key and includes it.
    Included(Vec<u8>),
    /// The range reaches the key and leaves it out.
    Excluded(Vec<u8>),
    /// The range has no end on this side.
    Unbounded,
}

/// What a `Bound` holds, as plain values.
pub enum BoundView {
    Included(Seq<u8>),
    Excluded(Seq<u8>),
    Unbounded,
}

impl View for Bound {
    type V = BoundView;

    open spec fn view(&self) -> BoundView {
        match self {
            Bound::Included(k) => BoundView::Included(k@),
            Bound::Excluded(k) => BoundView::Excluded(k@),
            Bound::Unbounded => BoundView::Unbounded,
        }
    }
}

/// The key lies at or before the upper end of a range.
pub open spec fn within_upper(upper: BoundView, k: Seq<u8>) -> bool {
    match upper {
        BoundView::Included(u) => key_le(k, u),
        BoundView::Excluded(u) => key_lt(k, u),
        BoundView::Unbounded => true,
    }
}

/// The key lies at or after the lower end of a range.
pub open spec fn within_lower(lower: BoundView, k: Seq<u8>) -> bool {
    match lower {
        BoundView::Included(l) => key_le(l, k),
        BoundView::Excluded(l) => key_lt(l, k),
        BoundView::Unbounded => true,
    }
}

/// The key lies in the range.
pub open spec fn in_range(lower: BoundView, upper: BoundView, k: Seq<u8>) -> bool {
    within_lower(lower, k) && within_upper(upper, k)
}

/// Where a range with the given lower end starts in a sorted run: at the
/// first entry whose key is not before the bound, and past that entry if the
/// bound is excluded and the entry has the bound's key.
pub open spec fn lower_pos(s: Seq<Entry>, lower: BoundView) -> int {
    match lower {
        BoundView::Included(k) => lower_bound(s, k),
        BoundView::Excluded(k) => {
            let i = lower_bound(s, k);
            if i < s.len() && s[i].0 == k {
                i + 1
            } else {
                i
            }
        },
        BoundView::Unbounded => 0,
    }
}

/// The entries of a run from the lower end of a range on.
pub open spec fn from_lower(s: Seq<Entry>, lower: BoundView) -> Seq<Entry> {
    s.skip(lower_pos(s, lower))
}

/// The leading entries of a run whose keys lie within the upper end of a range.
pub open spec fn prefix_within(s: Seq<Entry>, upper: BoundView) -> Seq<Entry>
    decreases s.len(),
{
    if s.len() == 0 || !within_upper(upper, s[0].0) {
        Seq::empty()
    } else {
        seq![s[0]] + prefix_within(s.skip(1), upper)
    }
}

/// The entries of a sorted run that lie in a range.
pub open spec fn range(s: Seq<Entry>, lower: BoundView, upper: BoundView) -> Seq<Entry> {
    prefix_within(from_lower(s, lower), upper)
}

/// A key after one that lies at or after the lower end of a range lies
/// there too, and a key before one that lies at or before the upper end.
pub proof fn lemma_within_monotone(bound: BoundView, a: Seq<u8>, b: Seq<u8>)
    requires
        key_lt(a, b),
    ensures
        within_lower(bound, a) ==> within_lower(bound, b),
        within_upper(bound, b) ==> within_upper(bound, a),
{
    match bound {
        BoundView::Included(x) => {
            if key_lt(x, a) {
                lemma_key_lt_transitive(x, a, b);
            }
            if key_lt(b, x) {
                lemma_key_lt_transitive(a, b, x);
            }
        },
        BoundView::Excluded(x) => {
            if key_lt(x, a) {
                lemma_key_lt_transitive(x, a, b);
            }
            if key_lt(b, x) {
                lemma_key_lt_transitive(a, b, x);
            }
        },
        BoundView::Unbounded => {},
    }
}

/// In a sorted run the range starts where the keys begin to lie at or
/// after its lower end.
pub proof fn lemma_lower_pos(s: Seq<Entry>, lower: BoundView)
    requires
        sorted(s),
    ensures
        0 <= lower_pos(s, lower) <= s.len(),
        forall|j: int| 0 <= j < lower_pos(s, lower) ==> !within_lower(lower, #[trigger] s[j].0),
        forall|j: int|
            lower_pos(s, lower) <= j < s.len() ==> within_lower(lower, #[trigger] s[j].0),
{
    let p = lower_pos(s, lower);
    match lower {
        BoundView::Included(l) => {
            lemma_lower_bound(s, l);
            lemma_lower_bound_sorted(s, l);
            assert forall|j: int| 0 <= j < p implies !within_lower(lower, #[trigger] s[j].0) by {
                lemma_key_lt_total(s[j].0, l);
            }
        },
        BoundView::Excluded(l) => {
            let i = lower_bound(s, l);
            lemma_lower_bound(s, l);
            lemma_lower_bound_sorted(s, l);
            lemma_key_lt_irreflexive(l);
            assert forall|j: int| 0 <= j < p implies !within_lower(lower, #[trigger] s[j].0) by {
                if j < i {
                    lemma_key_lt_total(s[j].0, l);
                }
            }
            assert forall|j: int| p <= j < s.len() implies within_lower(
                lower,
                #[trigger] s[j].0,
            ) by {
                assert(key_le(l, s[i].0));
                if j > i {
                    assert(key_lt(s[i].0, s[j].0));
                    if s[i].0 != l {
                        lemma_key_lt_transitive(l, s[i].0, s[j].0);
                    }
                }
            }
        },
        BoundView::Unbounded => {},
    }
}

/// From the lower end of a range on, a sorted run is sorted, and holds for
/// a key what the run holds if the key lies at or after that end, else
/// nothing.
pub proof fn lemma_lookup_from_lower(s: Seq<Entry>, lower: BoundView, k: Seq<u8>)
    requires
        sorted(s),
    ensures
        sorted(from_lower(s, lower)),
        lookup(from_lower(s, lower), k) == if within_lower(lower, k) {
            lookup(s, k)
        } else {
            None
        },
{
    let p = lower_pos(s, lower);
    let t = from_lower(s, lower);
    lemma_lower_pos(s, lower);
    lemma_sorted_subrange(s, p, s.len() as int);
    assert(t =~= s.subrange(p, s.len() as int));
    lemma_lookup_index(t, k);
    lemma_lookup_index(s, k);
    if lookup(t, k) is Some {
        let i = choose|i: int| 0 <= i < t.len() && (#[trigger] t[i]).0 == k && t[i].1 == lookup(t, k)->0;
        assert(t[i] == s[p + i]);
        lemma_lookup_sorted(s, p + i);
    } else if within_lower(lower, k) && lookup(s, k) is Some {
        let j = choose|j: int| 0 <= j < s.len() && (#[trigger] s[j]).0 == k && s[j].1 == lookup(s, k)->0;
        assert(j >= p);
        assert(t[j - p] == s[j]);
    }
}

/// Up to the upper end of a range, a sorted run is sorted, and holds for a
/// key what the run holds if the key lies at or before that end, else
/// nothing.
pub proof fn lemma_lookup_prefix_within(s: Seq<Entry>, upper: BoundView, k: Seq<u8>)
    requires
        sorted(s),
    ensures
        sorted(prefix_within(s, upper)),
        prefix_within(s, upper).len() <= s.len(),
        forall|i: int|
            0 <= i < prefix_within(s, upper).len() ==> #[trigger] prefix_within(s, upper)[i] == s[i],
        lookup(prefix_within(s, upper), k) == if within_upper(upper, k) {
            lookup(s, k)
        } else {
            None
        },
    decreases s.len(),
{
    let p = prefix_within(s, upper);
    if s.len() == 0 {
    } else if !within_upper(upper, s[0].0) {
        if within_upper(upper, k) {
            lemma_key_lt_total(k, s[0].0);
            if key_lt(s[0].0, k) {
                lemma_within_monotone(upper, s[0].0, k);
            }
            lemma_lookup_outside(s, k);
        }
    } else {
        let rest = prefix_within(s.skip(1), upper);
        lemma_sorted_tail(s);
        lemma_lookup_prefix_within(s.skip(1), upper, k);
        assert(p =~= seq![s[0]] + rest);
        assert(p.skip(1) =~= rest);
        assert forall|i: int| 0 <= i < p.len() implies #[trigger] p[i] == s[i] by {
            if i > 0 {
                assert(rest[i - 1] == s.skip(1)[i - 1]);
            }
        }
        assert forall|i: int, j: int| 0 <= i < j < p.len() implies key_lt(
            #[trigger] p[i].0,
            #[trigger] p[j].0,
        ) by {
            assert(p[i] == s[i] && p[j] == s[j]);
        }
    }
}

/// The part of a sorted run that lies in a range is sorted, and holds for a
/// key what the run holds if the key lies in the range, else nothing.
pub proof fn lemma_lookup_range(s: Seq<Entry>, lower: BoundView, upper: BoundView, k: Seq<u8>)
    requires
        sorted(s),
    ensures
        sorted(range(s, lower, upper)),
        lookup(range(s, lower, upper), k) == if in_range(lower, upper, k) {
            lookup(s, k)
        } else {
            None
        },
{
    lemma_lookup_from_lower(s, lower, k);
    lemma_lookup_prefix_within(from_lower(s, lower), upper, k);
}

impl Bound {
    /// A copy of the bound.
    pub fn duplicate(&self) -> (r: Bound)
        ensures
            r@ == self@,
    {
        match self {
            Bound::Included(k) => Bound::Included(crate::key::key_to_vec(k.as_slice())),
            Bound::Excluded(k) => Bound::Excluded(crate::key::key_to_vec(k.as_slice())),
            Bound::Unbounded => Bound::Unbounded,
        }
    }

    /// Tells whether `key` lies at or before this upper end of a range.
    pub fn admits(&self, key: &[u8]) -> (r: bool)
        ensures
            r == within_upper(self@, key@),
    {
        match self {
            Bound::Included(u) => key_less_eq(key, u.as_slice()),
            Bound::Excluded(u) => key_less(key, u.as_slice()),
            Bound::Unbounded => true,
        }
    }
}

} // verus!
