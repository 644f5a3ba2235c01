//! The implicit binary tree: a sequence read as a complete tree whose root is
//! position 0 and in which the children of position `i` are `2i + 1` and
//! `2i + 2`. Everything here is a definition; what holds of the definitions is
//! proved in the modules beside this one.

use vstd::prelude::*;
use crate::laws::lemma_removed_permutes;

verus! {

/// A position of the backing vector as a position of the tree.
pub open spec fn node(i: usize) -> int {
    i as int
}

/// The position above `c` in the tree.
pub open spec fn parent(c: int) -> int {
    (c - 1) / 2
}

/// The left child of `p`.
pub open spec fn left(p: int) -> int {
    2 * p + 1
}

/// The right child of `p`.
pub open spec fn right(p: int) -> int {
    2 * p + 2
}

/// `s` with the items at `i` and `j` exchanged.
pub open spec fn swapped<T>(s: Seq<T>, i: int, j: int) -> Seq<T> {
    s.update(i, s[j]).update(j, s[i])
}

/// `s` after the item at `i` has left: the last item takes its place and the
/// sequence is one shorter.
pub open spec fn vacated<T>(s: Seq<T>, i: int) -> Seq<T> {
    s.update(i, s.last()).drop_last()
}

/// The item at `c` does not outrank the item above it.
pub open spec fn settled<T>(s: Seq<T>, below: spec_fn(T, T) -> bool, c: int) -> bool {
    0 < c < s.len() ==> !below(s[parent(c)], s[c])
}

/// Every position from `lo` on dominates its children.
pub open spec fn heap_from<T>(s: Seq<T>, below: spec_fn(T, T) -> bool, lo: int) -> bool {
    forall|c: int| 0 < c < s.len() && lo <= parent(c) ==> #[trigger] settled(s, below, c)
}

/// The heap property: no item ranks below one of its children.
pub open spec fn is_heap<T>(s: Seq<T>, below: spec_fn(T, T) -> bool) -> bool {
    heap_from(s, below, 0)
}

/// The item at position `p` is a greatest one: it ranks below no item of `s`.
pub open spec fn is_top<T>(s: Seq<T>, below: spec_fn(T, T) -> bool, p: int) -> bool {
    forall|k: int| 0 <= k < s.len() ==> !below(s[p], #[trigger] s[k])
}

/// `x` is an item of `s` at a position from `lo` on.
pub open spec fn occurs_from<T>(s: Seq<T>, lo: int, x: T) -> bool {
    exists|m: int| lo <= m < s.len() && #[trigger] s[m] == x
}

/// Every item of `s` from position `lo` on is an item of `t` from `lo` on.
pub open spec fn within<T>(s: Seq<T>, t: Seq<T>, lo: int) -> bool {
    forall|k: int| lo <= k < s.len() ==> occurs_from(t, lo, #[trigger] s[k])
}

/// The child of `i` that sift-down exchanges with: the right one where it
/// outranks the left, else the left. The result may lie past the end.
pub open spec fn top_child<T>(s: Seq<T>, below: spec_fn(T, T) -> bool, i: int) -> int {
    if right(i) < s.len() && below(s[left(i)], s[right(i)]) {
        right(i)
    } else {
        left(i)
    }
}

/// Sift-down from `i`: while the greater child outranks the item, the two are
/// exchanged and the walk goes on from the child's position.
pub open spec fn sift_down<T>(s: Seq<T>, below: spec_fn(T, T) -> bool, i: int) -> Seq<T>
    decreases s.len() - i,
{
    let c = top_child(s, below, i);
    if 0 <= i && c < s.len() && below(s[i], s[c]) {
        sift_down(swapped(s, i, c), below, c)
    } else {
        s
    }
}

/// Sift-up from `i`: while the item outranks the one above it, the two are
/// exchanged and the walk goes on from the upper position.
pub open spec fn sift_up<T>(s: Seq<T>, below: spec_fn(T, T) -> bool, i: int) -> Seq<T>
    decreases i,
{
    if 0 < i < s.len() && below(s[parent(i)], s[i]) {
        sift_up(swapped(s, i, parent(i)), below, parent(i))
    } else {
        s
    }
}

/// Bottom-up construction over the first `n` positions: sift-down at
/// `n - 1`, then at `n - 2`, and so on to the root.
pub open spec fn heapified<T>(s: Seq<T>, below: spec_fn(T, T) -> bool, n: int) -> Seq<T>
    decreases n,
{
    if n <= 0 {
        s
    } else {
        heapified(sift_down(s, below, n - 1), below, n - 1)
    }
}

/// The heap built from `s` as it lies: bottom-up construction over all of it.
pub open spec fn heapify<T>(s: Seq<T>, below: spec_fn(T, T) -> bool) -> Seq<T> {
    heapified(s, below, s.len() as int)
}

/// `s` with `x` added: appended, then sifted up from the last position.
pub open spec fn inserted<T>(s: Seq<T>, below: spec_fn(T, T) -> bool, x: T) -> Seq<T> {
    sift_up(s.push(x), below, s.push(x).len() - 1)
}

/// Whether the item that takes the place of the one at `i` moves up from
/// there: it outranks the item above the place.
pub open spec fn rises<T>(s: Seq<T>, below: spec_fn(T, T) -> bool, i: int) -> bool {
    let t = vacated(s, i);
    0 < i < t.len() && below(t[parent(i)], t[i])
}

/// `s` without the item at `i`: the last item takes the place, and moves up
/// where it outranks the item above it, else down.
pub open spec fn removed<T>(s: Seq<T>, below: spec_fn(T, T) -> bool, i: int) -> Seq<T> {
    if rises(s, below, i) {
        sift_up(vacated(s, i), below, i)
    } else {
        sift_down(vacated(s, i), below, i)
    }
}

/// `s` after the positions before `i` have been visited from `i - 1` down to
/// the root: an item that `keep` rejects is taken out, and where the item
/// that fills its place moves up, the place is visited again.
pub open spec fn retained_from<T>(
    s: Seq<T>,
    below: spec_fn(T, T) -> bool,
    keep: spec_fn(T) -> bool,
    i: int,
) -> Seq<T>
    decreases s.len() + i,
{
    if i <= 0 || i > s.len() {
        s
    } else if keep(s[i - 1]) {
        retained_from(s, below, keep, i - 1)
    } else {
        proof {
            lemma_removed_permutes(s, below, i - 1);
        }
        if rises(s, below, i - 1) {
            retained_from(removed(s, below, i - 1), below, keep, i)
        } else {
            retained_from(removed(s, below, i - 1), below, keep, i - 1)
        }
    }
}

/// `s` after every position has been visited, from the last to the first.
pub open spec fn retained<T>(
    s: Seq<T>,
    below: spec_fn(T, T) -> bool,
    keep: spec_fn(T) -> bool,
) -> Seq<T> {
    retained_from(s, below, keep, s.len() as int)
}

/// `s` after each item of `xs` has been added in turn.
pub open spec fn inserted_all<T>(s: Seq<T>, below: spec_fn(T, T) -> bool, xs: Seq<T>) -> Seq<T>
    decreases xs.len(),
{
    if xs.len() == 0 {
        s
    } else {
        inserted(inserted_all(s, below, xs.drop_last()), below, xs.last())
    }
}

/// `s` after the root has been taken out `k` times.
pub open spec fn drained<T>(s: Seq<T>, below: spec_fn(T, T) -> bool, k: nat) -> Seq<T>
    decreases k,
{
    if k == 0 {
        s
    } else {
        drained(removed(s, below, 0), below, (k - 1) as nat)
    }
}

} // verus!
