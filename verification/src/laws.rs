//! What holds of a heap across its operations: each gives a heap again, holds
//! the items it should, and the root is a greatest item.

use vstd::prelude::*;
use vstd::multiset::*;
use vstd::seq_lib::*;
use crate::order::{lemma_carries, lemma_irreflexive, lemma_transitive, strict_weak_order};
use crate::sift::{
    lemma_sift_down_among, lemma_sift_down_mends, lemma_sift_down_permutes, lemma_sift_up_local,
    lemma_sift_up_mends, lemma_sift_up_permutes,
};
use crate::tree::{
    drained, heap_from, heapified, heapify, inserted, inserted_all, is_heap, is_top, left, parent,
    removed, retained, retained_from, right, rises, settled, sift_down, vacated,
};

verus! {

/// Bottom-up construction only rearranges, and gives heap order where the
/// positions from `n` on already dominate their children.
pub proof fn lemma_heapified<T>(s: Seq<T>, below: spec_fn(T, T) -> bool, n: int)
    requires
        strict_weak_order(below),
        0 <= n <= s.len(),
        heap_from(s, below, n),
    ensures
        is_heap(heapified(s, below, n), below),
        heapified(s, below, n).len() == s.len(),
        heapified(s, below, n).to_multiset() == s.to_multiset(),
    decreases n,
{
    if n > 0 {
        let i = n - 1;
        assert forall|c: int|
            0 < c < s.len() && i <= parent(c) && parent(c) != i implies #[trigger] settled(
            s,
            below,
            c,
        ) by {
            assert(n <= parent(c));
        }
        lemma_sift_down_mends(s, below, i, i);
        lemma_sift_down_permutes(s, below, i);
        lemma_heapified(sift_down(s, below, i), below, i);
    }
}

/// Bottom-up construction over a whole sequence gives a heap of the same
/// items, whatever their order was.
pub proof fn lemma_heapify<T>(s: Seq<T>, below: spec_fn(T, T) -> bool)
    requires
        strict_weak_order(below),
    ensures
        is_heap(heapify(s, below), below),
        heapify(s, below).len() == s.len(),
        heapify(s, below).to_multiset() == s.to_multiset(),
{
    lemma_heapified(s, below, s.len() as int);
}

/// Adding an item to a heap gives a heap of the old items and the new one.
pub proof fn lemma_inserted<T>(s: Seq<T>, below: spec_fn(T, T) -> bool, x: T)
    requires
        strict_weak_order(below),
        is_heap(s, below),
    ensures
        is_heap(inserted(s, below, x), below),
        inserted(s, below, x).len() == s.len() + 1,
        inserted(s, below, x).to_multiset() == s.to_multiset().insert(x),
{
    let t = s.push(x);
    let i = t.len() - 1;
    assert forall|c: int| 0 < c < t.len() && c != i implies #[trigger] settled(t, below, c) by {
        assert(settled(s, below, c));
    }
    lemma_sift_up_mends(t, below, i);
    lemma_sift_up_permutes(t, below, i);
    s.to_multiset_ensures();
}

/// Taking the item at `i` out drops exactly that item, whatever the order.
pub proof fn lemma_removed_permutes<T>(s: Seq<T>, below: spec_fn(T, T) -> bool, i: int)
    requires
        0 <= i < s.len(),
    ensures
        removed(s, below, i).len() == s.len() - 1,
        removed(s, below, i).to_multiset() == s.to_multiset().remove(s[i]),
{
    lemma_vacated_items(s, i);
    lemma_sift_up_permutes(vacated(s, i), below, i);
    lemma_sift_down_permutes(vacated(s, i), below, i);
}

/// Taking the item at `i` out of a heap gives a heap of the other items.
pub proof fn lemma_removed<T>(s: Seq<T>, below: spec_fn(T, T) -> bool, i: int)
    requires
        strict_weak_order(below),
        is_heap(s, below),
        0 <= i < s.len(),
    ensures
        is_heap(removed(s, below, i), below),
        removed(s, below, i).len() == s.len() - 1,
        removed(s, below, i).to_multiset() == s.to_multiset().remove(s[i]),
{
    lemma_removed_permutes(s, below, i);
    let t = vacated(s, i);
    let l = left(i);
    let r = right(i);
    if 0 < i < t.len() {
        let p = parent(i);
        assert(settled(s, below, i));
        if l < t.len() {
            assert(settled(s, below, l));
            lemma_carries(below, s[p], s[i], s[l]);
        }
        if r < t.len() {
            assert(settled(s, below, r));
            lemma_carries(below, s[p], s[i], s[r]);
        }
    }
    if rises(s, below, i) {
        let p = parent(i);
        assert forall|c: int| 0 < c < t.len() && c != i implies #[trigger] settled(t, below, c) by {
            assert(settled(s, below, c));
            if parent(c) == i {
                if below(t[i], t[c]) {
                    lemma_transitive(below, t[p], t[i], t[c]);
                }
            }
        }
        lemma_sift_up_mends(t, below, i);
    } else {
        assert forall|c: int|
            0 < c < t.len() && 0 <= parent(c) && parent(c) != i implies #[trigger] settled(
            t,
            below,
            c,
        ) by {
            assert(settled(s, below, c));
        }
        lemma_sift_down_mends(t, below, 0, i);
    }
}

/// Vacating a position drops exactly the item that stood there.
pub proof fn lemma_vacated_items<T>(s: Seq<T>, i: int)
    requires
        0 <= i < s.len(),
    ensures
        vacated(s, i).len() == s.len() - 1,
        vacated(s, i).to_multiset() == s.to_multiset().remove(s[i]),
{
    broadcast use group_multiset_axioms;

    let m = s.to_multiset();
    let u = s.update(i, s.last());
    let n = s.len() - 1;
    to_multiset_update(s, i, s.last());
    u.to_multiset_ensures();
    s.to_multiset_ensures();
    assert(u.remove(n) =~= vacated(s, i));
    assert(s.contains(s[i]));
    assert(s.contains(s.last()));
    if i == n {
        assert(m.insert(s.last()).remove(s[i]).remove(s.last()) =~= m.remove(s[i]));
    } else {
        assert(u[n] == s.last());
        assert(m.insert(s.last()).remove(s[i]).remove(s.last()) =~= m.remove(s[i]));
    }
}

/// In a heap the root ranks below no item.
pub proof fn lemma_root_is_top<T>(s: Seq<T>, below: spec_fn(T, T) -> bool)
    requires
        strict_weak_order(below),
        is_heap(s, below),
    ensures
        is_top(s, below, 0),
{
    assert forall|k: int| 0 <= k < s.len() implies !below(s[0], #[trigger] s[k]) by {
        lemma_root_dominates(s, below, k);
    }
}

/// In a heap the root does not rank below the item at `k`.
pub proof fn lemma_root_dominates<T>(s: Seq<T>, below: spec_fn(T, T) -> bool, k: int)
    requires
        strict_weak_order(below),
        is_heap(s, below),
        0 <= k < s.len(),
    ensures
        !below(s[0], s[k]),
    decreases k,
{
    if k == 0 {
        lemma_irreflexive(below, s[0]);
    } else {
        lemma_root_dominates(s, below, parent(k));
        assert(settled(s, below, k));
        lemma_carries(below, s[0], s[parent(k)], s[k]);
    }
}

/// The heap property, read from the upper position: no item of a heap ranks
/// below its left child or its right child.
pub proof fn lemma_heap_children<T>(s: Seq<T>, below: spec_fn(T, T) -> bool, i: int)
    requires
        is_heap(s, below),
        0 <= i,
    ensures
        left(i) < s.len() ==> !below(s[i], s[left(i)]),
        right(i) < s.len() ==> !below(s[i], s[right(i)]),
{
    assert(settled(s, below, left(i)));
    assert(settled(s, below, right(i)));
}

/// Adding items one by one to a heap gives a heap that holds the old items
/// and the added ones.
pub proof fn lemma_inserted_all<T>(s: Seq<T>, below: spec_fn(T, T) -> bool, xs: Seq<T>)
    requires
        strict_weak_order(below),
        is_heap(s, below),
    ensures
        is_heap(inserted_all(s, below, xs), below),
        inserted_all(s, below, xs).len() == s.len() + xs.len(),
        inserted_all(s, below, xs).to_multiset() == s.to_multiset().add(xs.to_multiset()),
    decreases xs.len(),
{
    broadcast use group_multiset_axioms;

    if xs.len() == 0 {
        assert(xs.to_multiset() =~= Multiset::<T>::empty()) by {
            xs.to_multiset_ensures();
            assert(xs =~= Seq::<T>::empty());
        }
        assert(s.to_multiset().add(xs.to_multiset()) =~= s.to_multiset());
    } else {
        let front = xs.drop_last();
        lemma_inserted_all(s, below, front);
        lemma_inserted(inserted_all(s, below, front), below, xs.last());
        front.to_multiset_ensures();
        assert(front.push(xs.last()) =~= xs);
        assert(s.to_multiset().add(front.to_multiset()).insert(xs.last()) =~= s.to_multiset().add(
            xs.to_multiset(),
        ));
    }
}

/// Adding one more item after a run of additions is the run with that item
/// at its end.
pub proof fn lemma_inserted_all_push<T>(
    s: Seq<T>,
    below: spec_fn(T, T) -> bool,
    xs: Seq<T>,
    x: T,
)
    ensures
        inserted_all(s, below, xs.push(x)) == inserted(inserted_all(s, below, xs), below, x),
{
    assert(xs.push(x).drop_last() =~= xs);
}

/// Taking the root out `k` times from a heap of at least `k` items gives a
/// heap that is `k` items shorter.
pub proof fn lemma_drained<T>(s: Seq<T>, below: spec_fn(T, T) -> bool, k: nat)
    requires
        strict_weak_order(below),
        is_heap(s, below),
        k <= s.len(),
    ensures
        is_heap(drained(s, below, k), below),
        drained(s, below, k).len() == s.len() - k,
        drained(s, below, k).to_multiset().subset_of(s.to_multiset()),
    decreases k,
{
    broadcast use group_multiset_axioms;

    if k > 0 {
        lemma_removed(s, below, 0);
        lemma_drained(removed(s, below, 0), below, (k - 1) as nat);
    }
}

/// A scan that has only accepted items behind it gives a heap of exactly the
/// items that `keep` accepts.
pub proof fn lemma_retained_from<T>(
    s: Seq<T>,
    below: spec_fn(T, T) -> bool,
    keep: spec_fn(T) -> bool,
    i: int,
)
    requires
        strict_weak_order(below),
        is_heap(s, below),
        0 <= i <= s.len(),
        forall|k: int| i <= k < s.len() ==> keep(#[trigger] s[k]),
    ensures
        is_heap(retained_from(s, below, keep, i), below),
        retained_from(s, below, keep, i).to_multiset() == s.to_multiset().filter(keep),
    decreases s.len() + i,
{
    broadcast use group_multiset_axioms;

    let m = s.to_multiset();
    if i == 0 {
        assert forall|v: T| m.filter(keep).count(v) == m.count(v) by {
            s.to_multiset_ensures();
            if !keep(v) && m.count(v) > 0 {
                assert(s.contains(v));
            }
        }
        assert(m.filter(keep) =~= m);
    } else if keep(s[i - 1]) {
        lemma_retained_from(s, below, keep, i - 1);
    } else {
        let at = i - 1;
        let gap = vacated(s, at);
        let t = removed(s, below, at);
        lemma_removed(s, below, at);
        assert(m.remove(s[at]).filter(keep) =~= m.filter(keep));
        if rises(s, below, at) {
            assert forall|k: int| i <= k < t.len() implies keep(#[trigger] t[k]) by {
                lemma_sift_up_local(gap, below, at, k);
                assert(keep(s[k]));
            }
            lemma_retained_from(t, below, keep, i);
        } else {
            assert forall|k: int| at <= k < gap.len() implies keep(#[trigger] gap[k]) by {
                if k == at {
                    assert(keep(s[s.len() - 1]));
                } else {
                    assert(keep(s[k]));
                }
            }
            lemma_sift_down_among(gap, below, at, keep);
            lemma_sift_down_permutes(gap, below, at);
            lemma_retained_from(t, below, keep, at);
        }
    }
}

/// Keeping by `keep` gives a heap of exactly the items of the old heap that
/// `keep` accepts: none of them is lost, and none that it rejects stays.
pub proof fn lemma_retained<T>(s: Seq<T>, below: spec_fn(T, T) -> bool, keep: spec_fn(T) -> bool)
    requires
        strict_weak_order(below),
        is_heap(s, below),
    ensures
        is_heap(retained(s, below, keep), below),
        retained(s, below, keep).to_multiset() == s.to_multiset().filter(keep),
        forall|k: int|
            0 <= k < retained(s, below, keep).len() ==> keep(#[trigger] retained(s, below, keep)[k]),
{
    broadcast use group_multiset_axioms;

    lemma_retained_from(s, below, keep, s.len() as int);
    let r = retained(s, below, keep);
    assert forall|k: int| 0 <= k < r.len() implies keep(#[trigger] r[k]) by {
        r.to_multiset_ensures();
        assert(r.contains(r[k]));
        assert(s.to_multiset().filter(keep).count(r[k]) > 0);
    }
}

/// Where `after` holds items of `before` only, each of them accepted by
/// `keep`, and lacks none that `keep` accepts, it holds exactly the items of
/// `before` that `keep` accepts.
pub proof fn lemma_kept_items<T>(before: Seq<T>, after: Seq<T>, keep: spec_fn(T) -> bool)
    requires
        after.to_multiset().subset_of(before.to_multiset()),
        forall|k: int| 0 <= k < after.len() ==> keep(#[trigger] after[k]),
        forall|x: T| after.to_multiset().count(x) < before.to_multiset().count(x) ==> !keep(x),
    ensures
        after.to_multiset() == before.to_multiset().filter(keep),
{
    broadcast use group_multiset_axioms;

    let m = before.to_multiset();
    let n = after.to_multiset();
    assert forall|v: T| n.count(v) == m.filter(keep).count(v) by {
        after.to_multiset_ensures();
        assert(n.count(v) <= m.count(v));
        if !keep(v) && n.count(v) > 0 {
            assert(after.contains(v));
        }
    }
    assert(n =~= m.filter(keep));
}

/// Items leave a heap in descending order: the root that comes after a root
/// has been taken out does not outrank the one that left.
pub proof fn lemma_roots_descend<T>(s: Seq<T>, below: spec_fn(T, T) -> bool)
    requires
        strict_weak_order(below),
        is_heap(s, below),
        s.len() >= 2,
    ensures
        !below(s[0], removed(s, below, 0)[0]),
{
    broadcast use group_multiset_axioms;

    let r = removed(s, below, 0);
    lemma_removed(s, below, 0);
    lemma_root_is_top(s, below);
    r.to_multiset_ensures();
    s.to_multiset_ensures();
    assert(r.contains(r[0]));
    assert(r.to_multiset().count(r[0]) > 0);
    assert(s.to_multiset().remove(s[0]).count(r[0]) <= s.to_multiset().count(r[0]));
    assert(s.contains(r[0]));
    let k = choose|k: int| 0 <= k < s.len() && s[k] == r[0];
    assert(!below(s[0], s[k]));
}

} // verus!
