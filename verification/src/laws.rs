//! What holds of the intersection of any two ascending sequences.

use crate::model::{
    ascending, common, lemma_ascending_unique, lemma_common_ascending, lemma_common_back,
    lemma_common_commutes, lemma_common_contains, lemma_common_front, lemma_common_none, occurs,
};
use crate::order::{lemma_order_laws, lemma_same_same, less, same, total_order};
use crate::shotgun::{longer_of, shorter_of, ShotgunIntersection};
use vstd::prelude::*;

verus! {

/// The result of walking two ascending sequences with one cursor each: of two
/// heads that are the same the first is kept and both cursors move, else the
/// cursor at the lesser head moves.
pub open spec fn two_pointer<T: Ord>(a: Seq<T>, b: Seq<T>) -> Seq<T>
    decreases a.len() + b.len(),
{
    if a.len() == 0 || b.len() == 0 {
        Seq::empty()
    } else if same(a[0], b[0]) {
        seq![a[0]] + two_pointer(a.drop_first(), b.drop_first())
    } else if less(a[0], b[0]) {
        two_pointer(a.drop_first(), b)
    } else {
        two_pointer(a, b.drop_first())
    }
}

/// What `a` shares with `b` depends only on which elements of `a` occur in `b`.
pub proof fn lemma_common_same_members<T: Ord>(a: Seq<T>, b: Seq<T>, c: Seq<T>)
    requires
        forall|i: int| 0 <= i < a.len() ==> (occurs(b, #[trigger] a[i]) <==> occurs(c, a[i])),
    ensures
        common(a, b) == common(a, c),
    decreases a.len(),
{
    if a.len() > 0 {
        lemma_common_back(a, b);
        lemma_common_back(a, c);
        lemma_common_same_members(a.drop_last(), b, c);
    } else {
        lemma_common_none(a, b);
        lemma_common_none(a, c);
    }
}

/// The intersection of two ascending sequences is ascending and holds exactly
/// the elements of the first that occur in the second; no other ascending
/// sequence holds exactly those. Taken the other way round it has the same
/// length, and the same elements place by place.
pub proof fn lemma_intersection_is_exact<T: Ord>(a: Seq<T>, b: Seq<T>, r: Seq<T>)
    requires
        total_order::<T>(),
        ascending(a),
        ascending(b),
    ensures
        ascending(common(a, b)),
        forall|x: T| common(a, b).contains(x) <==> a.contains(x) && occurs(b, x),
        ascending(r) && (forall|x: T| r.contains(x) <==> a.contains(x) && occurs(b, x)) ==> r
            == common(a, b),
        common(a, b).len() == common(b, a).len(),
        forall|i: int|
            0 <= i < common(a, b).len() ==> same(#[trigger] common(a, b)[i], common(b, a)[i]),
{
    lemma_common_ascending(a, b);
    lemma_common_commutes(a, b);
    assert forall|x: T| common(a, b).contains(x) <==> a.contains(x) && occurs(b, x) by {
        lemma_common_contains(a, b, x);
    }
    if ascending(r) && (forall|x: T| r.contains(x) <==> a.contains(x) && occurs(b, x)) {
        lemma_ascending_unique(r, common(a, b));
    }
}

/// The intersection of two ascending sequences is what the two-pointer walk
/// over them yields.
pub proof fn lemma_intersection_is_two_pointer<T: Ord>(a: Seq<T>, b: Seq<T>)
    requires
        total_order::<T>(),
        ascending(a),
        ascending(b),
    ensures
        common(a, b) == two_pointer(a, b),
    decreases a.len() + b.len(),
{
    lemma_order_laws::<T>();
    if a.len() == 0 || b.len() == 0 {
        lemma_common_none(a, b);
    } else if same(a[0], b[0]) {
        let a1 = a.drop_first();
        let b1 = b.drop_first();
        lemma_common_front(a, b);
        assert(same(b[0], a[0]));
        assert(occurs(b, a[0]));
        assert forall|i: int| 0 <= i < a1.len() implies (occurs(b, #[trigger] a1[i]) <==> occurs(
            b1,
            a1[i],
        )) by {
            assert(less(a[0], a[i + 1]));
            if occurs(b, a1[i]) {
                let j = choose|j: int| 0 <= j < b.len() && same(#[trigger] b[j], a1[i]);
                if j == 0 {
                    lemma_same_same(a[0], b[0], a1[i]);
                }
                assert(same(b1[j - 1], a1[i]));
            }
            if occurs(b1, a1[i]) {
                let j = choose|j: int| 0 <= j < b1.len() && same(#[trigger] b1[j], a1[i]);
                assert(same(b[j + 1], a1[i]));
            }
        }
        lemma_common_same_members(a1, b, b1);
        lemma_intersection_is_two_pointer(a1, b1);
    } else if less(a[0], b[0]) {
        let a1 = a.drop_first();
        lemma_common_front(a, b);
        if occurs(b, a[0]) {
            let j = choose|j: int| 0 <= j < b.len() && same(#[trigger] b[j], a[0]);
            if j > 0 {
                assert(less(b[0], b[j]));
                assert(less(a[0], b[j]));
            }
        }
        lemma_intersection_is_two_pointer(a1, b);
    } else {
        let b1 = b.drop_first();
        assert(less(b[0], a[0]));
        assert forall|i: int| 0 <= i < a.len() implies (occurs(b, #[trigger] a[i]) <==> occurs(
            b1,
            a[i],
        )) by {
            if i > 0 {
                assert(less(a[0], a[i]));
            }
            assert(less(b[0], a[i]));
            if occurs(b, a[i]) {
                let j = choose|j: int| 0 <= j < b.len() && same(#[trigger] b[j], a[i]);
                assert(same(b1[j - 1], a[i]));
            }
            if occurs(b1, a[i]) {
                let j = choose|j: int| 0 <= j < b1.len() && same(#[trigger] b1[j], a[i]);
                assert(same(b[j + 1], a[i]));
            }
        }
        lemma_common_same_members(a, b, b1);
        lemma_intersection_is_two_pointer(a, b1);
    }
}

/// With an empty sequence on either side nothing is shared.
pub proof fn lemma_intersection_with_empty<T: Ord>(s: Seq<T>)
    ensures
        common(Seq::<T>::empty(), s) == Seq::<T>::empty(),
        common(s, Seq::<T>::empty()) == Seq::<T>::empty(),
{
    lemma_common_none(Seq::<T>::empty(), s);
    lemma_common_none(s, Seq::<T>::empty());
}

/// Sequences of which no element is the same as one of the other share
/// nothing.
pub proof fn lemma_intersection_of_disjoint<T: Ord>(a: Seq<T>, b: Seq<T>)
    requires
        forall|i: int, j: int|
            0 <= i < a.len() && 0 <= j < b.len() ==> !same(#[trigger] b[j], #[trigger] a[i]),
    ensures
        common(a, b) == Seq::<T>::empty(),
{
    lemma_common_none(a, b);
}

/// Where every element of `a` occurs in `b`, the two share all of `a`.
pub proof fn lemma_intersection_of_part<T: Ord>(a: Seq<T>, b: Seq<T>)
    requires
        forall|i: int| 0 <= i < a.len() ==> occurs(b, #[trigger] a[i]),
    ensures
        common(a, b) == a,
    decreases a.len(),
{
    if a.len() > 0 {
        lemma_common_back(a, b);
        lemma_intersection_of_part(a.drop_last(), b);
        assert(a.drop_last().push(a.last()) =~= a);
    } else {
        lemma_common_none(a, b);
    }
}

/// A sequence shares all of itself with itself.
pub proof fn lemma_intersection_with_self<T: Ord>(a: Seq<T>)
    requires
        total_order::<T>(),
    ensures
        common(a, a) == a,
{
    lemma_order_laws::<T>();
    assert forall|i: int| 0 <= i < a.len() implies occurs(a, #[trigger] a[i]) by {
        assert(same(a[i], a[i]));
    }
    lemma_intersection_of_part(a, a);
}

/// Whichever of two ascending sequences plays the shorter part, what a
/// traversal hands out has the length of `common(a, b)` and the same elements
/// place by place.
pub proof fn lemma_roles_do_not_matter<T: Ord>(a: Seq<T>, b: Seq<T>)
    requires
        total_order::<T>(),
        ascending(a),
        ascending(b),
    ensures
        common(shorter_of(a, b), longer_of(a, b)).len() == common(a, b).len(),
        forall|i: int|
            0 <= i < common(a, b).len() ==> same(
                #[trigger] common(shorter_of(a, b), longer_of(a, b))[i],
                common(a, b)[i],
            ),
{
    lemma_order_laws::<T>();
    lemma_common_commutes(b, a);
}

/// Where only equal values are the same, the intersection of two ascending
/// sequences does not depend on their order, nor on which plays the shorter
/// part.
pub proof fn lemma_intersection_commutes<T: Ord>(a: Seq<T>, b: Seq<T>)
    requires
        total_order::<T>(),
        ascending(a),
        ascending(b),
        forall|x: T, y: T| #[trigger] same(x, y) ==> x == y,
    ensures
        common(a, b) == common(b, a),
        common(shorter_of(a, b), longer_of(a, b)) == common(a, b),
{
    lemma_common_commutes(a, b);
    assert(common(a, b) =~= common(b, a));
}

/// Two traversals made from the same two sequences have the same elements to
/// hand out, whatever their batch widths and whichever was made first.
pub proof fn lemma_traversals_agree<T: Ord>(
    a: Seq<T>,
    b: Seq<T>,
    first: &ShotgunIntersection<T>,
    second: &ShotgunIntersection<T>,
)
    requires
        first.remaining() == common(shorter_of(a, b), longer_of(a, b)),
        second.remaining() == common(shorter_of(a, b), longer_of(a, b)),
    ensures
        first.remaining() == second.remaining(),
{
}

} // verus!
