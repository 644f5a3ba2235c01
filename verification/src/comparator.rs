//! The functions that a caller hands to a heap, and how each relates to what
//! it stands for: the comparison function to a priority order, a test to a
//! predicate.
//!
//! A heap knows its order only through the answers of the function. What it
//! guarantees is therefore stated for every order that the function decides:
//! a caller who knows such an order reads the guarantees with it.

use vstd::prelude::*;
use std::cmp::Ordering;
use crate::order::strict_weak_order;

verus! {

/// `f` may be called on every pair of items.
pub open spec fn callable<T, F>(f: F) -> bool where F: Fn(&T, &T) -> Ordering {
    forall|a: T, b: T| #[trigger] call_requires(f, (&a, &b))
}

/// `f` decides the strict weak order `below`: whenever it answers, it answers
/// `Less` exactly where the first item ranks below the second, and `Greater`
/// exactly where the second ranks below the first.
pub open spec fn decides<T, F>(f: F, below: spec_fn(T, T) -> bool) -> bool where
    F: Fn(&T, &T) -> Ordering,
 {
    &&& strict_weak_order(below)
    &&& forall|a: T, b: T, o: Ordering| #[trigger]
        call_ensures(f, (&a, &b), o) ==> {
            &&& o == Ordering::Less <==> below(a, b)
            &&& o == Ordering::Greater <==> below(b, a)
        }
}

/// `f` judges by the predicate `keep`: whenever it answers for an item, it
/// answers what `keep` holds of the item.
pub open spec fn judges<T, G>(f: G, keep: spec_fn(T) -> bool) -> bool where G: FnMut(&T) -> bool {
    forall|x: T, b: bool| #[trigger] call_ensures(f, (&x,), b) ==> b == keep(x)
}

} // verus!
