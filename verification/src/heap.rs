//! The heap itself: a vector read as an implicit binary tree, kept in heap
//! order under the comparison function that the heap was made with.

use vstd::prelude::*;
use std::cmp::Ordering;
use crate::comparator::{callable, decides, judges};
use crate::laws::{
    lemma_heapify, lemma_inserted, lemma_kept_items, lemma_removed, lemma_root_is_top,
    lemma_vacated_items,
};
use crate::sift::lemma_swapped_permutes;
use crate::tree::{
    heapified, heapify, inserted, inserted_all, is_heap, is_top, node, occurs_from, removed, retained,
    retained_from, rises, sift_down, sift_up, swapped, top_child, within,
};

verus! {

/// A priority queue over a caller's comparison function. The item for which
/// the function answers `Greater` against the others leaves first.
#[derive(Clone, Default)]
pub struct BinaryHeapCompare<T, F> {
    array: Vec<T>,
    compare: F,
}

/// Exchanges two items of a vector through the standard library's slice
/// `swap`, which leaves every other position as it was.
#[verifier::external_body]
fn exchange<T>(v: &mut Vec<T>, i: usize, j: usize)
    requires
        i < old(v)@.len(),
        j < old(v)@.len(),
    ensures
        final(v)@ == swapped(old(v)@, node(i), node(j)),
{
    v.swap(i, j);
}

/// Renders the items of a vector, in their order, with the standard
/// library's `Debug` formatting of a vector. Nothing is stated of the text.
#[verifier::external_body]
fn listing<T: std::fmt::Debug>(v: &Vec<T>) -> String {
    format!("{:?}", v)
}

impl<T, F> BinaryHeapCompare<T, F> {
    /// The items in the order of the backing vector: the root first, then
    /// level by level.
    pub closed spec fn view(&self) -> Seq<T> {
        self.array@
    }

    /// The comparison function that the heap was made with.
    pub closed spec fn comparator(&self) -> F {
        self.compare
    }

    /// The heap's invariant: the comparison function may be called on every
    /// pair, and under every order that it decides no item ranks below one of
    /// its children.
    pub open spec fn wf(&self) -> bool where F: Fn(&T, &T) -> Ordering {
        &&& callable(self.comparator())
        &&& forall|below: spec_fn(T, T) -> bool| #[trigger]
            decides(self.comparator(), below) ==> is_heap(self@, below)
    }

    /// An empty heap under `cmp`.
    pub fn new(cmp: F) -> (r: BinaryHeapCompare<T, F>) where F: Fn(&T, &T) -> Ordering
        requires
            callable(cmp),
        ensures
            r.wf(),
            r.comparator() == cmp,
            r@ == Seq::<T>::empty(),
    {
        BinaryHeapCompare { array: Vec::new(), compare: cmp }
    }

    /// The heap of the items of `xs` under `cmp`, built bottom-up in place.
    pub fn from_vec(xs: Vec<T>, cmp: F) -> (r: BinaryHeapCompare<T, F>) where
        F: Fn(&T, &T) -> Ordering,

        requires
            callable(cmp),
        ensures
            r.wf(),
            r.comparator() == cmp,
            r@.len() == xs@.len(),
            r@.to_multiset() == xs@.to_multiset(),
            forall|below: spec_fn(T, T) -> bool| #[trigger]
                decides(cmp, below) ==> r@ == heapify(xs@, below),
    {
        let ghost items = xs@;
        let mut r = BinaryHeapCompare { array: xs, compare: cmp };
        let mut i: usize = r.array.len();
        while i > 0
            invariant
                r.comparator() == cmp,
                callable(cmp),
                i <= r@.len(),
                r@.len() == items.len(),
                r@.to_multiset() == items.to_multiset(),
                forall|below: spec_fn(T, T) -> bool| #[trigger]
                    decides(cmp, below) ==> heapified(r@, below, node(i)) == heapify(items, below),
            decreases i,
        {
            i = i - 1;
            r.shift_down(i);
        }
        proof {
            assert forall|below: spec_fn(T, T) -> bool| #[trigger] decides(cmp, below) implies r@
                == heapify(items, below) && is_heap(r@, below) by {
                lemma_heapify(items, below);
            }
        }
        r
    }

    /// Whether the heap holds no item.
    pub fn is_empty(&self) -> (r: bool)
        ensures
            r == (self@.len() == 0),
    {
        self.array.is_empty()
    }

    /// The number of items.
    pub fn len(&self) -> (r: usize)
        ensures
            r == self@.len(),
    {
        self.array.len()
    }

    /// Drops every item and keeps the comparison function.
    pub fn clear(&mut self) where F: Fn(&T, &T) -> Ordering
        requires
            old(self).wf(),
        ensures
            final(self).wf(),
            final(self).comparator() == old(self).comparator(),
            final(self)@ == Seq::<T>::empty(),
    {
        self.array.clear();
    }

    /// Adds `x`: appends it and sifts it up from the last position.
    pub fn push(&mut self, x: T) where F: Fn(&T, &T) -> Ordering
        requires
            old(self).wf(),
        ensures
            final(self).wf(),
            final(self).comparator() == old(self).comparator(),
            final(self)@.len() == old(self)@.len() + 1,
            final(self)@.to_multiset() == old(self)@.to_multiset().insert(x),
            forall|below: spec_fn(T, T) -> bool| #[trigger]
                decides(old(self).comparator(), below) ==> final(self)@ == inserted(
                    old(self)@,
                    below,
                    x,
                ),
    {
        let ghost before = self@;
        self.array.push(x);
        let i: usize = self.array.len() - 1;
        self.shift_up(i);
        proof {
            before.to_multiset_ensures();
            assert forall|below: spec_fn(T, T) -> bool| #[trigger]
                decides(self.comparator(), below) implies is_heap(self@, below) by {
                lemma_inserted(before, below, x);
            }
        }
    }

    /// Takes out the root, a greatest item, if there is one: the last item
    /// takes its place and is sifted down.
    pub fn pop(&mut self) -> (r: Option<T>) where F: Fn(&T, &T) -> Ordering
        requires
            old(self).wf(),
        ensures
            final(self).wf(),
            final(self).comparator() == old(self).comparator(),
            old(self)@.len() == 0 ==> r.is_none() && final(self)@ == old(self)@,
            old(self)@.len() > 0 ==> {
                &&& r == Some(old(self)@[0])
                &&& final(self)@.len() == old(self)@.len() - 1
                &&& final(self)@.to_multiset() == old(self)@.to_multiset().remove(old(self)@[0])
            },
            forall|below: spec_fn(T, T) -> bool| #[trigger]
                decides(old(self).comparator(), below) && old(self)@.len() > 0 ==> {
                    &&& is_top(old(self)@, below, 0)
                    &&& final(self)@ == removed(old(self)@, below, 0)
                },
    {
        if self.array.is_empty() {
            None
        } else {
            let ghost before = self@;
            let r = self.array.swap_remove(0);
            self.shift_down(0);
            proof {
                lemma_vacated_items(before, 0);
                assert forall|below: spec_fn(T, T) -> bool| #[trigger]
                    decides(self.comparator(), below) implies is_heap(self@, below) && is_top(
                    before,
                    below,
                    0,
                ) && self@ == removed(before, below, 0) by {
                    lemma_root_is_top(before, below);
                    lemma_removed(before, below, 0);
                }
            }
            Some(r)
        }
    }

    /// The root, a greatest item, if there is one.
    pub fn peek(&self) -> (r: Option<&T>) where F: Fn(&T, &T) -> Ordering
        requires
            self.wf(),
        ensures
            self@.len() == 0 ==> r.is_none(),
            self@.len() > 0 ==> r == Some(&self@[0]),
            forall|below: spec_fn(T, T) -> bool| #[trigger]
                decides(self.comparator(), below) ==> is_top(self@, below, 0),
    {
        proof {
            assert forall|below: spec_fn(T, T) -> bool| #[trigger]
                decides(self.comparator(), below) implies is_top(self@, below, 0) by {
                lemma_root_is_top(self@, below);
            }
        }
        if self.array.is_empty() {
            None
        } else {
            Some(&self.array[0])
        }
    }

    /// Keeps the items that `f` accepts and drops the others. The positions
    /// are visited from the last to the first; an item that `f` rejects leaves
    /// as in `pop`, but the item that takes its place may also move up, and
    /// where it does, the position is visited again.
    pub fn retain<G: FnMut(&T) -> bool>(&mut self, mut f: G) where F: Fn(&T, &T) -> Ordering
        requires
            old(self).wf(),
            forall|x: T| call_requires(f, (&x,)),
        ensures
            final(self).wf(),
            final(self).comparator() == old(self).comparator(),
            final(self)@.to_multiset().subset_of(old(self)@.to_multiset()),
            forall|k: int|
                0 <= k < final(self)@.len() ==> call_ensures(f, (&#[trigger] final(self)@[k],), true),
            forall|x: T|
                final(self)@.to_multiset().count(x) < old(self)@.to_multiset().count(x)
                    ==> call_ensures(f, (&x,), false),
            forall|keep: spec_fn(T) -> bool| #[trigger]
                judges(f, keep) ==> final(self)@.to_multiset() == old(self)@.to_multiset().filter(
                    keep,
                ),
            forall|below: spec_fn(T, T) -> bool, keep: spec_fn(T) -> bool|
                #![trigger decides(old(self).comparator(), below), judges(f, keep)]
                decides(old(self).comparator(), below) && judges(f, keep) ==> final(self)@
                    == retained(old(self)@, below, keep),
    {
        let ghost start = self@;
        let ghost test = f;
        let ghost cmp = self.comparator();
        let mut i: usize = self.array.len();
        while i > 0
            invariant
                self.wf(),
                self.comparator() == cmp,
                f == test,
                i <= self@.len(),
                forall|x: T| call_requires(test, (&x,)),
                self@.to_multiset().subset_of(start.to_multiset()),
                forall|k: int|
                    i <= k < self@.len() ==> call_ensures(test, (&#[trigger] self@[k],), true),
                forall|x: T|
                    self@.to_multiset().count(x) < start.to_multiset().count(x) ==> call_ensures(
                        test,
                        (&x,),
                        false,
                    ),
                forall|below: spec_fn(T, T) -> bool, keep: spec_fn(T) -> bool|
                    #![trigger decides(cmp, below), judges(test, keep)]
                    decides(cmp, below) && judges(test, keep) ==> retained_from(
                        self@,
                        below,
                        keep,
                        node(i),
                    ) == retained(start, below, keep),
            decreases self@.len() + i,
        {
            let at: usize = i - 1;
            let ghost before = self@;
            if f(&self.array[at]) {
                i = at;
            } else {
                self.array.swap_remove(at);
                let ghost gap = self@;
                let ghost up = false;
                proof {
                    lemma_vacated_items(before, node(at));
                }
                if at < self.array.len() {
                    if at > 0 && self.outranks(at, (at - 1) / 2) {
                        self.shift_up(at);
                        proof {
                            up = true;
                        }
                    } else {
                        self.shift_down(at);
                        proof {
                            assert forall|k: int| at <= k < self@.len() implies call_ensures(
                                test,
                                (&#[trigger] self@[k],),
                                true,
                            ) by {
                                assert(occurs_from(gap, node(at), self@[k]));
                            }
                        }
                        i = at;
                    }
                } else {
                    i = at;
                }
                proof {
                    assert forall|below: spec_fn(T, T) -> bool| #[trigger]
                        decides(cmp, below) implies is_heap(self@, below) && self@ == removed(
                        before,
                        below,
                        node(at),
                    ) && up == rises(before, below, node(at)) by {
                        lemma_removed(before, below, node(at));
                    }
                }
            }
        }
        proof {
            assert forall|keep: spec_fn(T) -> bool| #[trigger] judges(test, keep) implies self@.to_multiset()
                == start.to_multiset().filter(keep) by {
                lemma_kept_items(start, self@, keep);
            }
        }
    }

    /// A listing of the items as the backing vector holds them: in heap
    /// order, not sorted.
    pub fn debug_string(&self) -> String where T: std::fmt::Debug {
        listing(&self.array)
    }

    /// A heap that has been cleared is as a new one under the same comparison
    /// function: the two hold the same, are heaps alike, and hold the same
    /// after the same run of pushes.
    pub proof fn lemma_cleared_as_new(
        cleared: Self,
        fresh: Self,
        below: spec_fn(T, T) -> bool,
        xs: Seq<T>,
    ) where F: Fn(&T, &T) -> Ordering
        requires
            cleared@ == Seq::<T>::empty(),
            fresh@ == Seq::<T>::empty(),
            cleared.comparator() == fresh.comparator(),
        ensures
            cleared@ == fresh@,
            cleared.wf() == fresh.wf(),
            inserted_all(cleared@, below, xs) == inserted_all(fresh@, below, xs),
    {
    }

    /// Whether the item at `i` ranks below the item at `j`.
    fn ranks_below(&self, i: usize, j: usize) -> (r: bool) where F: Fn(&T, &T) -> Ordering
        requires
            callable(self.comparator()),
            i < self@.len(),
            j < self@.len(),
        ensures
            forall|below: spec_fn(T, T) -> bool| #[trigger]
                decides(self.comparator(), below) ==> r == below(self@[node(i)], self@[node(j)]),
    {
        match (self.compare)(&self.array[i], &self.array[j]) {
            Ordering::Less => true,
            _ => false,
        }
    }

    /// Whether the item at `i` outranks the item at `j`.
    fn outranks(&self, i: usize, j: usize) -> (r: bool) where F: Fn(&T, &T) -> Ordering
        requires
            callable(self.comparator()),
            i < self@.len(),
            j < self@.len(),
        ensures
            forall|below: spec_fn(T, T) -> bool| #[trigger]
                decides(self.comparator(), below) ==> r == below(self@[node(j)], self@[node(i)]),
    {
        match (self.compare)(&self.array[i], &self.array[j]) {
            Ordering::Greater => true,
            _ => false,
        }
    }

    /// Walks the item at `i` up while it outranks the item above it.
    fn shift_up(&mut self, i: usize) where F: Fn(&T, &T) -> Ordering
        requires
            callable(old(self).comparator()),
            i < old(self)@.len(),
        ensures
            final(self).comparator() == old(self).comparator(),
            final(self)@.len() == old(self)@.len(),
            final(self)@.to_multiset() == old(self)@.to_multiset(),
            forall|k: int| i < k < old(self)@.len() ==> final(self)@[k] == old(self)@[k],
            forall|below: spec_fn(T, T) -> bool| #[trigger]
                decides(old(self).comparator(), below) ==> final(self)@ == sift_up(
                    old(self)@,
                    below,
                    node(i),
                ),
    {
        let ghost start = self@;
        let ghost f = self.comparator();
        let mut at: usize = i;
        while at > 0
            invariant
                self.comparator() == f,
                callable(f),
                at <= i,
                at < self@.len(),
                self@.len() == start.len(),
                self@.to_multiset() == start.to_multiset(),
                forall|k: int| i < k < start.len() ==> self@[k] == start[k],
                forall|below: spec_fn(T, T) -> bool| #[trigger]
                    decides(f, below) ==> sift_up(self@, below, node(at)) == sift_up(
                        start,
                        below,
                        node(i),
                    ),
            ensures
                self.comparator() == f,
                self@.len() == start.len(),
                self@.to_multiset() == start.to_multiset(),
                forall|k: int| i < k < start.len() ==> self@[k] == start[k],
                forall|below: spec_fn(T, T) -> bool| #[trigger]
                    decides(f, below) ==> self@ == sift_up(start, below, node(i)),
            decreases at,
        {
            let p: usize = (at - 1) / 2;
            if self.outranks(at, p) {
                proof {
                    lemma_swapped_permutes(self@, node(at), node(p));
                }
                exchange(&mut self.array, at, p);
                at = p;
            } else {
                break ;
            }
        }
    }

    /// Walks the item at `i` down while a child outranks it, each time to the
    /// place of the greater child.
    fn shift_down(&mut self, i: usize) where F: Fn(&T, &T) -> Ordering
        requires
            callable(old(self).comparator()),
        ensures
            final(self).comparator() == old(self).comparator(),
            final(self)@.len() == old(self)@.len(),
            final(self)@.to_multiset() == old(self)@.to_multiset(),
            forall|k: int| 0 <= k < i && k < old(self)@.len() ==> final(self)@[k] == old(self)@[k],
            within(final(self)@, old(self)@, node(i)),
            forall|below: spec_fn(T, T) -> bool| #[trigger]
                decides(old(self).comparator(), below) ==> final(self)@ == sift_down(
                    old(self)@,
                    below,
                    node(i),
                ),
    {
        let ghost start = self@;
        let ghost f = self.comparator();
        let mut at: usize = i;
        proof {
            assert forall|k: int| i <= k < start.len() implies occurs_from(
                start,
                node(i),
                #[trigger] start[k],
            ) by {}
        }
        loop
            invariant
                self.comparator() == f,
                callable(f),
                i <= at,
                self@.len() == start.len(),
                self@.to_multiset() == start.to_multiset(),
                forall|k: int| 0 <= k < i && k < start.len() ==> self@[k] == start[k],
                within(self@, start, node(i)),
                forall|below: spec_fn(T, T) -> bool| #[trigger]
                    decides(f, below) ==> sift_down(self@, below, node(at)) == sift_down(
                        start,
                        below,
                        node(i),
                    ),
            ensures
                self.comparator() == f,
                self@.len() == start.len(),
                self@.to_multiset() == start.to_multiset(),
                forall|k: int| 0 <= k < i && k < start.len() ==> self@[k] == start[k],
                within(self@, start, node(i)),
                forall|below: spec_fn(T, T) -> bool| #[trigger]
                    decides(f, below) ==> self@ == sift_down(start, below, node(i)),
            decreases self@.len() - at,
        {
            let n: usize = self.array.len();
            // From `n / 2` on a position has no child: `2 * at + 1` is past the end.
            if at >= n / 2 {
                break ;
            }
            let j: usize = 2 * at + 1;
            let k: usize = 2 * at + 2;
            let ghost prev = self@;
            let ghost was = node(at);
            if k >= n {
                if self.ranks_below(at, j) {
                    exchange(&mut self.array, at, j);
                    at = j;
                } else {
                    break ;
                }
            } else {
                if self.ranks_below(at, j) {
                    if self.ranks_below(j, k) {
                        exchange(&mut self.array, at, k);
                        at = k;
                    } else {
                        exchange(&mut self.array, at, j);
                        at = j;
                    }
                } else {
                    if self.ranks_below(at, k) {
                        exchange(&mut self.array, at, k);
                        at = k;
                    } else {
                        break ;
                    }
                }
            }
            proof {
                lemma_swapped_permutes(prev, was, node(at));
                assert forall|m: int| i <= m < self@.len() implies occurs_from(
                    start,
                    node(i),
                    #[trigger] self@[m],
                ) by {
                    assert(occurs_from(start, node(i), prev[m]));
                    assert(occurs_from(start, node(i), prev[was]));
                    assert(occurs_from(start, node(i), prev[node(at)]));
                }
                assert forall|below: spec_fn(T, T) -> bool| #[trigger]
                    decides(f, below) implies sift_down(self@, below, node(at)) == sift_down(
                    start,
                    below,
                    node(i),
                ) by {
                    assert(top_child(prev, below, was) == node(at));
                }
            }
        }
    }
}

} // verus!
