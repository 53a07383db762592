//! Algebraic laws of the set operations, stated over the ordered sequences
//! that `Filter::union` and `Filter::intersect` return.
use vstd::prelude::*;
use crate::filter::{intersection_of, lemma_ordered_of_increasing, strictly_increasing, union_of};

verus! {

/// The union of a valid filter with itself is that filter, and so is the
/// intersection of a valid filter with itself.
pub proof fn law_idempotent(s: Seq<u32>)
    requires
        strictly_increasing(s),
    ensures
        union_of(s, s) == s,
        intersection_of(s, s) == s,
{
    assert(s.to_set().union(s.to_set()) =~= s.to_set());
    assert(s.to_set().intersect(s.to_set()) =~= s.to_set());
    lemma_ordered_of_increasing(s);
}

/// Union and intersection do not depend on the order of their operands.
pub proof fn law_commutative(a: Seq<u32>, b: Seq<u32>)
    requires
        strictly_increasing(a),
        strictly_increasing(b),
    ensures
        union_of(a, b) == union_of(b, a),
        intersection_of(a, b) == intersection_of(b, a),
{
    assert(a.to_set().union(b.to_set()) =~= b.to_set().union(a.to_set()));
    assert(a.to_set().intersect(b.to_set()) =~= b.to_set().intersect(a.to_set()));
}

/// The empty filter is the identity of union and absorbs under intersection.
pub proof fn law_empty(x: Seq<u32>)
    requires
        strictly_increasing(x),
    ensures
        union_of(Seq::empty(), x) == x,
        intersection_of(Seq::empty(), x) == Seq::<u32>::empty(),
{
    let e = Seq::<u32>::empty();
    assert(e.to_set().union(x.to_set()) =~= x.to_set());
    assert(e.to_set().intersect(x.to_set()) =~= e.to_set());
    lemma_ordered_of_increasing(x);
    lemma_ordered_of_increasing(e);
}

} // verus!
