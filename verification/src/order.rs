//! The order on keys: what the tree asks of a key type, and the facts about
//! that order which the proofs use.

use vstd::prelude::*;
use vstd::laws_cmp::obeys_cmp;
use vstd::laws_cmp::obeys_cmp_ord;
use vstd::laws_cmp::obeys_cmp_partial_ord;
use vstd::laws_cmp::obeys_partial_cmp_spec_properties;
use vstd::laws_eq::obeys_concrete_eq;
use vstd::std_specs::cmp::PartialEqSpec;
use vstd::std_specs::cmp::PartialOrdSpec;
use core::cmp::Ordering;

verus! {

/// The comparison operators of `K` form a strict total order, and `==` on
/// keys is equality of the keys themselves.
pub open spec fn strict_total_order<K: Ord>() -> bool {
    obeys_cmp::<K>() && obeys_concrete_eq::<K>()
}

/// `a` comes strictly before `b` in the order of `K`.
pub open spec fn less<K: Ord>(a: K, b: K) -> bool {
    a.partial_cmp_spec(&b) == Some(Ordering::Less)
}

/// Under a strict total order the executable `==` and `<` compute key
/// equality and `less`.
pub proof fn lemma_operators_agree<K: Ord>()
    requires
        strict_total_order::<K>(),
    ensures
        K::obeys_eq_spec(),
        K::obeys_partial_cmp_spec(),
        forall|a: K, b: K| #[trigger] a.eq_spec(&b) <==> a == b,
{
    reveal(obeys_concrete_eq);
    reveal(obeys_cmp_partial_ord);
}

/// Of two keys at most one comes before the other, and no key comes before
/// itself.
pub proof fn lemma_less_asymmetric<K: Ord>(a: K, b: K)
    requires
        strict_total_order::<K>(),
        less(a, b),
    ensures
        !less(b, a),
        a != b,
{
    reveal(obeys_concrete_eq);
    reveal(obeys_cmp_partial_ord);
    reveal(obeys_partial_cmp_spec_properties);
}

/// `less` is transitive.
pub proof fn lemma_less_transitive<K: Ord>(a: K, b: K, c: K)
    requires
        strict_total_order::<K>(),
        less(a, b),
        less(b, c),
    ensures
        less(a, c),
{
    reveal(obeys_partial_cmp_spec_properties);
}

/// Two different keys are ordered one way or the other.
pub proof fn lemma_less_total<K: Ord>(a: K, b: K)
    requires
        strict_total_order::<K>(),
    ensures
        a == b || less(a, b) || less(b, a),
{
    reveal(obeys_concrete_eq);
    reveal(obeys_cmp_partial_ord);
    reveal(obeys_cmp_ord);
    reveal(obeys_partial_cmp_spec_properties);
}

} // verus!
