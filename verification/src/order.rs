//! The order of the elements that sequences are compared by.

use core::cmp::Ordering;
use vstd::laws_cmp::group_laws_cmp;
use vstd::laws_cmp::obeys_cmp;
use vstd::laws_cmp::obeys_cmp_ord;
use vstd::laws_cmp::obeys_cmp_partial_ord;
use vstd::laws_cmp::obeys_partial_cmp_spec_properties;
use vstd::laws_eq::group_laws_eq;
use vstd::laws_eq::obeys_concrete_eq;
use vstd::prelude::*;
use vstd::std_specs::cmp::OrdSpec;
use vstd::std_specs::cmp::PartialEqSpec;
use vstd::std_specs::cmp::PartialOrdSpec;

verus! {

/// The comparison operators of `E` implement one total order, in which
/// only identical values compare equal.
pub open spec fn lawful_order<E: Ord>() -> bool {
    obeys_cmp::<E>() && obeys_concrete_eq::<E>()
}

/// `a` comes strictly before `b` in the order of `E`.
pub open spec fn before<E: Ord>(a: E, b: E) -> bool {
    a.partial_cmp_spec(&b) == Some(Ordering::Less)
}

/// Under a lawful order, `before` is a strict total order.
pub proof fn lemma_strict_total_order<E: Ord>()
    requires
        lawful_order::<E>(),
    ensures
        forall|a: E| !#[trigger] before(a, a),
        forall|a: E, b: E| a != b ==> #[trigger] before(a, b) || before(b, a),
        forall|a: E, b: E| #[trigger] before(a, b) ==> !before(b, a),
        forall|a: E, b: E, c: E| #[trigger]
            before(a, b) && #[trigger] before(b, c) ==> before(a, c),
        forall|a: E, b: E, c: E|
            !#[trigger] before(a, b) && !#[trigger] before(b, c) ==> !before(a, c),
{
    reveal(obeys_cmp_ord);
    reveal(obeys_cmp_partial_ord);
    reveal(obeys_partial_cmp_spec_properties);
    reveal(obeys_concrete_eq);
    assert forall|a: E, b: E| a != b implies #[trigger] before(a, b) || before(b, a) by {
        assert(a.partial_cmp_spec(&b) == Some(a.cmp_spec(&b)));
    }
    assert forall|a: E, b: E| #[trigger] before(a, b) implies !before(b, a) by {
        assert(b.partial_cmp_spec(&a) == Some(Ordering::Greater));
    }
    assert forall|a: E, b: E, c: E|
        !#[trigger] before(a, b) && !#[trigger] before(b, c) implies !before(a, c) by {
        if before(a, c) {
            if a == b {
            } else {
                assert(before(a, b) || before(b, a));
            }
        }
    }
}

/// Decides `before` by the `<` of `E`.
pub fn precedes<E: Ord>(a: &E, b: &E) -> (r: bool)
    requires
        lawful_order::<E>(),
    ensures
        r == before(*a, *b),
{
    proof {
        reveal(obeys_cmp_partial_ord);
    }
    *a < *b
}

/// The order of `usize` is lawful, and is the order of the numbers.
pub proof fn lemma_usize_order()
    ensures
        lawful_order::<usize>(),
        forall|a: usize, b: usize| #[trigger] before(a, b) <==> a < b,
{
    broadcast use group_laws_cmp;
    broadcast use group_laws_eq;

}

} // verus!
