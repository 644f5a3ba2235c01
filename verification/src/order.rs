//! Priority orders as relations: `below(a, b)` reads "`a` ranks strictly
//! below `b`".

use vstd::prelude::*;

verus! {

/// A strict weak order: nothing ranks below what ranks below it, and ranking
/// "not below" carries over a middle item. Such a relation is what a three-way
/// comparison of a total preorder gives for its `Less` answer.
pub open spec fn strict_weak_order<T>(below: spec_fn(T, T) -> bool) -> bool {
    &&& forall|a: T, b: T| #[trigger] below(a, b) ==> !below(b, a)
    &&& forall|a: T, b: T, c: T|
        !#[trigger] below(a, b) && !#[trigger] below(b, c) ==> !below(a, c)
}

/// In a strict weak order nothing ranks below itself.
pub proof fn lemma_irreflexive<T>(below: spec_fn(T, T) -> bool, a: T)
    requires
        strict_weak_order(below),
    ensures
        !below(a, a),
{
    if below(a, a) {
        assert(!below(a, a));
    }
}

/// In a strict weak order "below" carries over a middle item.
pub proof fn lemma_transitive<T>(below: spec_fn(T, T) -> bool, a: T, b: T, c: T)
    requires
        strict_weak_order(below),
        below(a, b),
        below(b, c),
    ensures
        below(a, c),
{
    if !below(a, c) {
        assert(!below(c, b));
        assert(!below(a, c) && !below(c, b) ==> !below(a, b));
    }
}

/// In a strict weak order, what does not rank below a middle item that in turn
/// does not rank below a third does not rank below the third.
pub proof fn lemma_carries<T>(below: spec_fn(T, T) -> bool, a: T, b: T, c: T)
    requires
        strict_weak_order(below),
        !below(a, b),
        !below(b, c),
    ensures
        !below(a, c),
{
}

} // verus!
