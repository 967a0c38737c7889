//! Total orders on identifier types, as the comparison operators of the type report them.

use core::cmp::Ordering;
use vstd::prelude::*;
use vstd::std_specs::cmp::PartialOrdSpec;

verus! {

/// The comparisons of `T` form a total order, and its operators report that order.
pub open spec fn total_order<T: Ord>() -> bool {
    vstd::laws_cmp::obeys_cmp::<T>()
}

/// `a` comes strictly before `b`.
pub open spec fn before<T: Ord>(a: T, b: T) -> bool {
    a.partial_cmp_spec(&b) == Some(Ordering::Less)
}

/// `a` and `b` take the same place in the order.
pub open spec fn same<T: Ord>(a: T, b: T) -> bool {
    a.partial_cmp_spec(&b) == Some(Ordering::Equal)
}

/// What a total order gives: of two values one comes before the other or they take the
/// same place, and never two of these at once; taking the same place is an equivalence;
/// coming before is transitive.
pub proof fn lemma_total_order<T: Ord>()
    requires
        total_order::<T>(),
    ensures
        forall|a: T, b: T| #[trigger] before(a, b) || same(a, b) || before(b, a),
        forall|a: T, b: T| #[trigger] before(a, b) ==> !same(a, b) && !before(b, a),
        forall|a: T, b: T| #[trigger] same(a, b) ==> same(b, a) && !before(b, a),
        forall|a: T| #[trigger] same(a, a),
        forall|a: T, b: T, c: T| #[trigger] same(a, b) && #[trigger] same(b, c) ==> same(a, c),
        forall|a: T, b: T, c: T|
            #[trigger] before(a, b) && #[trigger] before(b, c) ==> before(a, c),
        forall|a: T, b: T, c: T| #[trigger] same(a, b) && #[trigger] before(b, c) ==> before(a, c),
        forall|a: T, b: T, c: T| #[trigger] before(a, b) && #[trigger] same(b, c) ==> before(a, c),
{
    reveal(vstd::laws_cmp::obeys_cmp_partial_ord);
    reveal(vstd::laws_cmp::obeys_cmp_ord);
    reveal(vstd::laws_cmp::obeys_partial_cmp_spec_properties);
    reveal(vstd::laws_eq::obeys_eq_spec_properties);
    assert forall|a: T, b: T| #[trigger] before(a, b) || same(a, b) || before(b, a) by {
        let o = a.partial_cmp_spec(&b);
        assert(o == Some(Ordering::Less) || o == Some(Ordering::Equal) || o == Some(
            Ordering::Greater,
        ));
    }
    assert forall|a: T, b: T| #[trigger] before(a, b) implies !same(a, b) && !before(b, a) by {
        assert(b.partial_cmp_spec(&a) == Some(Ordering::Greater));
    }
    assert forall|a: T, b: T| #[trigger] same(a, b) implies same(b, a) && !before(b, a) by {
        assert(b.partial_cmp_spec(&a) == Some(Ordering::Equal));
    }
    assert forall|a: T| #[trigger] same(a, a) by {
        let o = a.partial_cmp_spec(&a);
        assert(o == Some(Ordering::Less) || o == Some(Ordering::Equal) || o == Some(
            Ordering::Greater,
        ));
    }
    assert forall|a: T, b: T, c: T| #[trigger] same(a, b) && #[trigger] before(b, c) implies before(
        a,
        c,
    ) by {
        assert(before(a, c) || same(a, c) || before(c, a));
        assert(same(b, a));
        if same(a, c) {
            assert(same(b, c));
        }
        if before(c, a) {
            assert(before(b, a));
        }
    }
    assert forall|a: T, b: T, c: T| #[trigger] before(a, b) && #[trigger] same(b, c) implies before(
        a,
        c,
    ) by {
        assert(before(a, c) || same(a, c) || before(c, a));
        assert(same(c, b));
        if same(a, c) {
            assert(same(a, b));
        }
        if before(c, a) {
            assert(before(c, b));
        }
    }
}

/// Of two values one comes before the other or they take the same place, and never two
/// of these at once.
pub proof fn lemma_one_of_three<T: Ord>(a: T, b: T)
    requires
        total_order::<T>(),
    ensures
        before(a, b) || same(a, b) || before(b, a),
        before(a, b) ==> !same(a, b) && !before(b, a),
        same(a, b) ==> same(b, a) && !before(b, a),
{
    lemma_total_order::<T>();
}

/// Coming before carries over a chain of three values in which the neighbours come one
/// before the other or take the same place, and not both pairs take the same place.
pub proof fn lemma_chain<T: Ord>(a: T, b: T, c: T)
    requires
        total_order::<T>(),
    ensures
        before(a, b) && before(b, c) ==> before(a, c),
        same(a, b) && before(b, c) ==> before(a, c),
        before(a, b) && same(b, c) ==> before(a, c),
        same(a, b) && same(b, c) ==> same(a, c),
{
    lemma_total_order::<T>();
}

/// The built-in unsigned integers are totally ordered.
pub proof fn lemma_integers_total_order()
    ensures
        total_order::<u8>(),
        total_order::<u16>(),
        total_order::<u32>(),
        total_order::<u64>(),
        total_order::<u128>(),
        total_order::<usize>(),
{
    broadcast use vstd::laws_cmp::group_laws_cmp;

}

/// Whether `a` and `b` take the same place in the order.
pub fn is_same<T: Ord>(a: &T, b: &T) -> (r: bool)
    requires
        total_order::<T>(),
    ensures
        r == same(*a, *b),
{
    proof {
        reveal(vstd::laws_cmp::obeys_cmp_partial_ord);
        reveal(vstd::laws_cmp::obeys_partial_cmp_spec_properties);
    }
    *a == *b
}

/// Whether `a` comes strictly before `b`.
pub fn is_before<T: Ord>(a: &T, b: &T) -> (r: bool)
    requires
        total_order::<T>(),
    ensures
        r == before(*a, *b),
{
    proof {
        reveal(vstd::laws_cmp::obeys_cmp_partial_ord);
    }
    *a < *b
}

} // verus!
