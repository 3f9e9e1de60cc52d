//! The total order on elements, as the tree's proofs use it.

use core::cmp::Ordering;
use vstd::laws_cmp::obeys_cmp;
use vstd::laws_eq::obeys_concrete_eq;
use vstd::prelude::*;
use vstd::std_specs::cmp::OrdSpec;

verus! {

/// The element type's `Ord` is a strict total order whose `Equal` is
/// equality of values.
pub open spec fn total_order<V: Ord>() -> bool {
    obeys_cmp::<V>() && obeys_concrete_eq::<V>()
}

/// `a` comes strictly before `b`.
pub open spec fn lt<V: Ord>(a: V, b: V) -> bool {
    a.cmp_spec(&b) == Ordering::Less
}

/// Every element of `s` comes strictly before the next one.
pub open spec fn strictly_ascending<V: Ord>(s: Seq<V>) -> bool {
    forall|i: int, j: int| 0 <= i < j < s.len() ==> lt(#[trigger] s[i], #[trigger] s[j])
}

/// The laws of a strict total order, read off `Ord`'s specification.
pub proof fn lemma_total_order<V: Ord>()
    requires
        total_order::<V>(),
    ensures
        V::obeys_cmp_spec(),
        forall|a: V, b: V| #[trigger] a.cmp_spec(&b) == Ordering::Equal <==> a == b,
        forall|a: V, b: V| #[trigger] a.cmp_spec(&b) == Ordering::Greater <==> lt(b, a),
        forall|a: V, b: V| #[trigger] lt(a, b) ==> !lt(b, a) && a != b,
        forall|a: V, b: V| a != b ==> #[trigger] lt(a, b) || #[trigger] lt(b, a),
        forall|a: V, b: V, c: V| #[trigger] lt(a, b) && #[trigger] lt(b, c) ==> lt(a, c),
{
    reveal(vstd::laws_cmp::obeys_cmp_partial_ord);
    reveal(vstd::laws_cmp::obeys_cmp_ord);
    reveal(vstd::laws_cmp::obeys_partial_cmp_spec_properties);
    reveal(obeys_concrete_eq);
}

} // verus!
