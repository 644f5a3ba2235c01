//! What the two sift procedures keep and what they restore: each only
//! rearranges the sequence, and each mends a heap that is out of order at one
//! position.

use vstd::prelude::*;
use vstd::multiset::*;
use vstd::seq_lib::*;
use crate::order::{lemma_carries, lemma_transitive, strict_weak_order};
use crate::tree::{
    heap_from, is_heap, left, parent, right, settled, sift_down, sift_up, swapped, top_child,
};

verus! {

/// `s` is in heap order from `lo` on but for the item at `i`, which its
/// children may outrank; the item above `i` dominates those children.
pub open spec fn down_ready<T>(s: Seq<T>, below: spec_fn(T, T) -> bool, lo: int, i: int) -> bool {
    &&& forall|c: int|
        0 < c < s.len() && lo <= parent(c) && parent(c) != i ==> #[trigger] settled(s, below, c)
    &&& 0 < i && lo <= parent(i) ==> {
        &&& left(i) < s.len() ==> !below(s[parent(i)], s[left(i)])
        &&& right(i) < s.len() ==> !below(s[parent(i)], s[right(i)])
    }
}

/// `s` is in heap order but for the item at `i`, which may outrank the item
/// above it; that upper item dominates the children of `i`.
pub open spec fn up_ready<T>(s: Seq<T>, below: spec_fn(T, T) -> bool, i: int) -> bool {
    &&& forall|c: int| 0 < c < s.len() && c != i ==> #[trigger] settled(s, below, c)
    &&& 0 < i ==> {
        &&& left(i) < s.len() ==> !below(s[parent(i)], s[left(i)])
        &&& right(i) < s.len() ==> !below(s[parent(i)], s[right(i)])
    }
}

/// Exchanging two items keeps the length and the items, counted with
/// multiplicity.
pub proof fn lemma_swapped_permutes<T>(s: Seq<T>, i: int, j: int)
    requires
        0 <= i < s.len(),
        0 <= j < s.len(),
    ensures
        swapped(s, i, j).len() == s.len(),
        swapped(s, i, j).to_multiset() == s.to_multiset(),
{
    broadcast use group_multiset_axioms;

    let m = s.to_multiset();
    let s1 = s.update(i, s[j]);
    to_multiset_update(s, i, s[j]);
    to_multiset_update(s1, j, s[i]);
    s.to_multiset_ensures();
    assert(s.contains(s[i]));
    assert(s.contains(s[j]));
    if i == j {
        assert(swapped(s, i, j) =~= s);
    } else {
        assert(s1[j] == s[j]);
        assert(m.insert(s[j]).remove(s[i]).insert(s[i]).remove(s[j]) =~= m);
    }
}

/// Sift-down only rearranges.
pub proof fn lemma_sift_down_permutes<T>(s: Seq<T>, below: spec_fn(T, T) -> bool, i: int)
    ensures
        sift_down(s, below, i).len() == s.len(),
        sift_down(s, below, i).to_multiset() == s.to_multiset(),
    decreases s.len() - i,
{
    let c = top_child(s, below, i);
    if 0 <= i && c < s.len() && below(s[i], s[c]) {
        lemma_swapped_permutes(s, i, c);
        lemma_sift_down_permutes(swapped(s, i, c), below, c);
    }
}

/// Sift-up only rearranges.
pub proof fn lemma_sift_up_permutes<T>(s: Seq<T>, below: spec_fn(T, T) -> bool, i: int)
    ensures
        sift_up(s, below, i).len() == s.len(),
        sift_up(s, below, i).to_multiset() == s.to_multiset(),
    decreases i,
{
    if 0 < i < s.len() && below(s[parent(i)], s[i]) {
        lemma_swapped_permutes(s, i, parent(i));
        lemma_sift_up_permutes(swapped(s, i, parent(i)), below, parent(i));
    }
}

/// Sift-down at the one position that is out of order gives heap order from
/// `lo` on.
pub proof fn lemma_sift_down_mends<T>(s: Seq<T>, below: spec_fn(T, T) -> bool, lo: int, i: int)
    requires
        strict_weak_order(below),
        0 <= lo <= i,
        down_ready(s, below, lo, i),
    ensures
        heap_from(sift_down(s, below, i), below, lo),
    decreases s.len() - i,
{
    let c = top_child(s, below, i);
    let l = left(i);
    let r = right(i);
    if c < s.len() && below(s[i], s[c]) {
        let t = swapped(s, i, c);
        let o = if c == l { r } else { l };
        assert(!below(s[c], s[i]));
        if o < s.len() {
            assert(!below(s[c], s[o]));
        }
        assert forall|d: int|
            0 < d < t.len() && lo <= parent(d) && parent(d) != c implies #[trigger] settled(
            t,
            below,
            d,
        ) by {
            if d == i {
                assert(!below(s[parent(i)], s[c]));
            } else if d == c {
            } else if d == o {
            } else {
                assert(settled(s, below, d));
            }
        }
        assert(settled(s, below, left(c)));
        assert(settled(s, below, right(c)));
        assert(down_ready(t, below, lo, c));
        lemma_sift_down_mends(t, below, lo, c);
    } else {
        assert forall|d: int| 0 < d < s.len() && lo <= parent(d) implies #[trigger] settled(
            s,
            below,
            d,
        ) by {
            if parent(d) == i {
                if r < s.len() {
                    if c == l {
                        lemma_carries(below, s[i], s[l], s[r]);
                    } else {
                        if below(s[i], s[l]) {
                            lemma_transitive(below, s[i], s[l], s[r]);
                        }
                    }
                }
            }
        }
    }
}

/// Sift-up at the one position that is out of order gives heap order.
pub proof fn lemma_sift_up_mends<T>(s: Seq<T>, below: spec_fn(T, T) -> bool, i: int)
    requires
        strict_weak_order(below),
        0 <= i,
        up_ready(s, below, i),
    ensures
        is_heap(sift_up(s, below, i), below),
    decreases i,
{
    if 0 < i < s.len() && below(s[parent(i)], s[i]) {
        let p = parent(i);
        let t = swapped(s, i, p);
        assert(!below(s[i], s[p]));
        assert forall|d: int| 0 < d < t.len() && d != p implies #[trigger] settled(t, below, d) by {
            if d == i {
            } else if parent(d) == p {
                assert(settled(s, below, d));
                if below(s[i], s[d]) {
                    lemma_transitive(below, s[p], s[i], s[d]);
                }
            } else if parent(d) == i {
            } else {
                assert(settled(s, below, d));
            }
        }
        if 0 < p {
            assert(settled(s, below, p));
            let q = if i == left(p) { right(p) } else { left(p) };
            if q < s.len() {
                assert(settled(s, below, q));
                lemma_carries(below, s[parent(p)], s[p], s[q]);
            }
        }
        assert(up_ready(t, below, p));
        lemma_sift_up_mends(t, below, p);
    } else {
        assert forall|d: int| 0 < d < s.len() && 0 <= parent(d) implies #[trigger] settled(
            s,
            below,
            d,
        ) by {
        }
    }
}

/// Sift-up from `i` leaves every position past `i` as it was.
pub proof fn lemma_sift_up_local<T>(s: Seq<T>, below: spec_fn(T, T) -> bool, i: int, k: int)
    requires
        i < k < s.len(),
    ensures
        sift_up(s, below, i)[k] == s[k],
    decreases i,
{
    if 0 < i < s.len() && below(s[parent(i)], s[i]) {
        lemma_sift_up_local(swapped(s, i, parent(i)), below, parent(i), k);
    }
}

/// Sift-down from `i` leaves every position before `i` as it was.
pub proof fn lemma_sift_down_local<T>(s: Seq<T>, below: spec_fn(T, T) -> bool, i: int, k: int)
    requires
        0 <= k < i,
        k < s.len(),
    ensures
        sift_down(s, below, i)[k] == s[k],
    decreases s.len() - i,
{
    let c = top_child(s, below, i);
    if 0 <= i && c < s.len() && below(s[i], s[c]) {
        lemma_sift_down_local(swapped(s, i, c), below, c, k);
    }
}

/// Sift-down from `i` moves items only among the positions from `i` on: what
/// holds of each item there before holds of each item there after.
pub proof fn lemma_sift_down_among<T>(
    s: Seq<T>,
    below: spec_fn(T, T) -> bool,
    i: int,
    good: spec_fn(T) -> bool,
)
    requires
        0 <= i,
        forall|k: int| i <= k < s.len() ==> good(#[trigger] s[k]),
    ensures
        forall|k: int| i <= k < s.len() ==> good(#[trigger] sift_down(s, below, i)[k]),
    decreases s.len() - i,
{
    let c = top_child(s, below, i);
    if c < s.len() && below(s[i], s[c]) {
        let t = swapped(s, i, c);
        assert forall|k: int| c <= k < t.len() implies good(#[trigger] t[k]) by {
            assert(good(s[k]));
            assert(good(s[i]));
        }
        lemma_sift_down_among(t, below, c, good);
        assert forall|k: int| i <= k < s.len() implies good(
            #[trigger] sift_down(s, below, i)[k],
        ) by {
            if k < c {
                lemma_sift_down_local(t, below, c, k);
                assert(good(s[k]));
                assert(good(s[c]));
            }
        }
    }
}

} // verus!
