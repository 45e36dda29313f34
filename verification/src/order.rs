//! The order in which sets are ranked: as the numbers that have bit `e` set
//! for each element `e`, so that the largest element in which two sets differ
//! decides.

use vstd::prelude::*;

verus! {

/// How one set stands to another in the order.
#[derive(Clone, Copy, Debug, PartialEq, Eq, Structural)]
pub enum Order {
    Less,
    Equal,
    Greater,
}

/// `e` puts `a` before `b`: it is in `b` and not in `a`, and the two sets
/// hold the same elements above `e`.
pub open spec fn decides(a: Set<nat>, b: Set<nat>, e: nat) -> bool {
    &&& b.contains(e)
    &&& !a.contains(e)
    &&& forall|x: nat| x > e ==> (#[trigger] a.contains(x) == b.contains(x))
}

/// `a` comes strictly before `b`.
pub open spec fn precedes(a: Set<nat>, b: Set<nat>) -> bool {
    exists|e: nat| #[trigger] decides(a, b, e)
}

/// `a` comes before `b` or is `b`.
pub open spec fn at_most(a: Set<nat>, b: Set<nat>) -> bool {
    a == b || precedes(a, b)
}

/// The three-way comparison of two sets.
pub open spec fn order_of(a: Set<nat>, b: Set<nat>) -> Order {
    if precedes(a, b) {
        Order::Less
    } else if precedes(b, a) {
        Order::Greater
    } else {
        Order::Equal
    }
}

/// Of two sets at most one comes before the other, and neither before itself.
pub proof fn lemma_precedes_asymmetric(a: Set<nat>, b: Set<nat>)
    requires
        precedes(a, b),
    ensures
        !precedes(b, a),
        a != b,
{
    let e1 = choose|e: nat| #[trigger] decides(a, b, e);
    if precedes(b, a) {
        let e2 = choose|e: nat| #[trigger] decides(b, a, e);
        if e1 > e2 {
            assert(b.contains(e1) == a.contains(e1));
        } else if e2 > e1 {
            assert(a.contains(e2) == b.contains(e2));
        }
    }
}

/// No set comes before itself.
pub proof fn lemma_precedes_irreflexive(a: Set<nat>)
    ensures
        !precedes(a, a),
{
    if precedes(a, a) {
        lemma_precedes_asymmetric(a, a);
    }
}

/// Where `a` comes before `b` and `b` before `c`, `a` comes before `c`.
pub proof fn lemma_precedes_transitive(a: Set<nat>, b: Set<nat>, c: Set<nat>)
    requires
        precedes(a, b),
        precedes(b, c),
    ensures
        precedes(a, c),
{
    let e1 = choose|e: nat| #[trigger] decides(a, b, e);
    let e2 = choose|e: nat| #[trigger] decides(b, c, e);
    let e = if e1 > e2 {
        e1
    } else {
        e2
    };
    if e == e1 {
        assert(b.contains(e1) == c.contains(e1));
    } else {
        assert(e1 != e2);
        assert(a.contains(e2) == b.contains(e2));
    }
    assert forall|x: nat| x > e implies (#[trigger] a.contains(x) == c.contains(x)) by {
        assert(a.contains(x) == b.contains(x));
        assert(b.contains(x) == c.contains(x));
    }
    assert(decides(a, c, e));
}

} // verus!
