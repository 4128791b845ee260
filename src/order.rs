//! The key order: what `Ord::cmp` means to the proofs.
use vstd::laws_cmp::*;
use vstd::laws_eq::*;
use vstd::prelude::*;
use vstd::std_specs::cmp::{OrdSpec, PartialEqSpec, PartialOrdSpec};
use core::cmp::Ordering;

verus! {

/// Keys are totally ordered by `cmp`, and `cmp` says `Equal` exactly on equal keys.
pub open spec fn total_order<K: Ord>() -> bool {
    &&& obeys_cmp::<K>()
    &&& obeys_concrete_eq::<K>()
}

/// `a` comes strictly before `b` in the key order.
pub open spec fn lt<K: Ord>(a: K, b: K) -> bool {
    a.cmp_spec(&b) == Ordering::Less
}

/// The laws of a strict total order, for keys whose `cmp` obeys its specification.
pub proof fn lemma_order_laws<K: Ord>()
    requires
        total_order::<K>(),
    ensures
        K::obeys_cmp_spec(),
        forall|a: K, b: K| #[trigger] a.cmp_spec(&b) == Ordering::Equal <==> a == b,
        forall|a: K, b: K| #[trigger] a.cmp_spec(&b) == Ordering::Greater <==> lt(b, a),
        forall|a: K, b: K| #![trigger lt(a, b)] lt(a, b) ==> a != b && !lt(b, a),
        forall|a: K, b: K| a != b ==> lt(a, b) || #[trigger] lt(b, a),
        forall|a: K, b: K, c: K| #[trigger] lt(a, b) && #[trigger] lt(b, c) ==> lt(a, c),
{
    reveal(obeys_partial_cmp_spec_properties);
    reveal(obeys_cmp_partial_ord);
    reveal(obeys_cmp_ord);
    reveal(obeys_concrete_eq);
    reveal(obeys_eq_spec_properties);
    assert forall|a: K, b: K| #[trigger] a.cmp_spec(&b) == Ordering::Equal <==> a == b by {
        assert(a.partial_cmp_spec(&b) == Some(a.cmp_spec(&b)));
    }
    assert forall|a: K, b: K| #[trigger] a.cmp_spec(&b) == Ordering::Greater <==> lt(b, a) by {
        assert(a.partial_cmp_spec(&b) == Some(a.cmp_spec(&b)));
        assert(b.partial_cmp_spec(&a) == Some(b.cmp_spec(&a)));
    }
    assert forall|a: K, b: K, c: K| #[trigger] lt(a, b) && #[trigger] lt(b, c) implies lt(a, c) by {
        assert(a.partial_cmp_spec(&b) == Some(a.cmp_spec(&b)));
        assert(b.partial_cmp_spec(&c) == Some(b.cmp_spec(&c)));
        assert(a.partial_cmp_spec(&c) == Some(a.cmp_spec(&c)));
    }
    assert forall|a: K, b: K| #![trigger lt(a, b)] lt(a, b) implies a != b && !lt(b, a) by {
        assert(a.partial_cmp_spec(&b) == Some(a.cmp_spec(&b)));
        assert(b.partial_cmp_spec(&a) == Some(b.cmp_spec(&a)));
        assert(a.partial_cmp_spec(&a) == Some(a.cmp_spec(&a)));
        assert(a.eq_spec(&a));
    }
    assert forall|a: K, b: K| a != b implies lt(a, b) || #[trigger] lt(b, a) by {
        assert(a.partial_cmp_spec(&b) == Some(a.cmp_spec(&b)));
        assert(b.partial_cmp_spec(&a) == Some(b.cmp_spec(&a)));
    }
}

} // verus!
