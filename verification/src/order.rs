//! The order on elements, as contracts speak of it.

use core::cmp::Ordering;
use vstd::prelude::*;
use vstd::std_specs::cmp::{OrdSpec, PartialEqSpec, PartialOrdSpec};

verus! {

/// `x` stands strictly before `y` in the element order.
pub open spec fn less<T: Ord>(x: T, y: T) -> bool {
    x.partial_cmp_spec(&y) == Some(Ordering::Less)
}

/// `x` and `y` are equal as `==` on `T` has it.
pub open spec fn same<T: Ord>(x: T, y: T) -> bool {
    x.eq_spec(&y)
}

/// The comparison operators of `T` agree with one another and describe one
/// total order: of two elements either one is less than the other or they are
/// the same.
pub open spec fn total_order<T: Ord>() -> bool {
    vstd::laws_cmp::obeys_cmp::<T>()
}

/// The laws of a total order, in the form the proofs use.
pub proof fn lemma_order_laws<T: Ord>()
    requires
        total_order::<T>(),
    ensures
        forall|x: T, y: T, z: T| #[trigger] less(x, y) && #[trigger] less(y, z) ==> less(x, z),
        forall|x: T, y: T| #[trigger] less(x, y) ==> !less(y, x) && !same(x, y) && !same(y, x),
        forall|x: T, y: T| !#[trigger] less(x, y) && !same(x, y) ==> less(y, x),
        forall|x: T| #[trigger] same(x, x),
        forall|x: T, y: T| #[trigger] same(x, y) ==> same(y, x),
{
    reveal(vstd::laws_cmp::obeys_cmp_partial_ord);
    reveal(vstd::laws_cmp::obeys_cmp_ord);
    reveal(vstd::laws_cmp::obeys_partial_cmp_spec_properties);
    reveal(vstd::laws_eq::obeys_eq_spec_properties);
    assert forall|x: T| #[trigger] same(x, x) by {
        assert(x.partial_cmp_spec(&x) == Some(x.cmp_spec(&x)));
        if x.partial_cmp_spec(&x) == Some(Ordering::Less) {
            assert(x.partial_cmp_spec(&x) == Some(Ordering::Greater));
        }
    }
    assert forall|x: T, y: T| #[trigger] less(x, y) implies !less(y, x) && !same(x, y) && !same(
        y,
        x,
    ) by {
        assert(y.partial_cmp_spec(&x) == Some(Ordering::Greater));
    }
    assert forall|x: T, y: T| !#[trigger] less(x, y) && !same(x, y) implies less(y, x) by {
        assert(x.partial_cmp_spec(&y) == Some(x.cmp_spec(&y)));
        assert(x.partial_cmp_spec(&y) == Some(Ordering::Greater));
    }
}

/// Sameness carries over: what is the same as a second is the same as what
/// the second is the same as.
pub proof fn lemma_same_same<T: Ord>(x: T, y: T, z: T)
    requires
        total_order::<T>(),
        same(x, y),
        same(y, z),
    ensures
        same(x, z),
{
    reveal(vstd::laws_eq::obeys_eq_spec_properties);
}

/// What is the same as something less than `z` is less than `z`.
pub proof fn lemma_same_less<T: Ord>(x: T, y: T, z: T)
    requires
        total_order::<T>(),
        same(x, y),
        less(y, z),
    ensures
        less(x, z),
{
    lemma_order_laws::<T>();
    assert(same(y, x));
    if same(x, z) {
        lemma_same_same(y, x, z);
    } else if !less(x, z) {
        assert(less(z, x));
        assert(less(y, x));
    }
}

/// What is less than something the same as `z` is less than `z`.
pub proof fn lemma_less_same<T: Ord>(x: T, y: T, z: T)
    requires
        total_order::<T>(),
        less(x, y),
        same(y, z),
    ensures
        less(x, z),
{
    lemma_order_laws::<T>();
    assert(same(z, y));
    if same(x, z) {
        lemma_same_same(x, z, y);
    } else if !less(x, z) {
        assert(less(z, x));
        assert(less(z, y));
    }
}

/// On `u32` the element order is `<` and sameness is `==`.
pub proof fn lemma_u32_order()
    ensures
        total_order::<u32>(),
        forall|x: u32, y: u32| #[trigger] less(x, y) <==> x < y,
        forall|x: u32, y: u32| #[trigger] same(x, y) <==> x == y,
{
    broadcast use vstd::laws_cmp::group_laws_cmp;

}

/// On `u64` the element order is `<` and sameness is `==`.
pub proof fn lemma_u64_order()
    ensures
        total_order::<u64>(),
        forall|x: u64, y: u64| #[trigger] less(x, y) <==> x < y,
        forall|x: u64, y: u64| #[trigger] same(x, y) <==> x == y,
{
    broadcast use vstd::laws_cmp::group_laws_cmp;

}

/// Whether `x` is strictly less than `y`.
pub fn is_less<T: Ord>(x: &T, y: &T) -> (r: bool)
    requires
        total_order::<T>(),
    ensures
        r == less(*x, *y),
{
    proof {
        reveal(vstd::laws_cmp::obeys_cmp_partial_ord);
    }
    *x < *y
}

/// Whether `x` and `y` are the same.
pub fn is_same<T: Ord>(x: &T, y: &T) -> (r: bool)
    requires
        total_order::<T>(),
    ensures
        r == same(*x, *y),
{
    proof {
        reveal(vstd::laws_cmp::obeys_cmp_partial_ord);
    }
    *x == *y
}

} // verus!
