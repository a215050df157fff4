//! The mathematical model: ascending sequences and what two of them share.

use crate::order::{
    is_less, lemma_order_laws, lemma_same_less, lemma_same_same, less, same, total_order,
};
use vstd::prelude::*;

verus! {

/// Every element of `s` stands strictly before each later one, so no two
/// elements of `s` are the same.
pub open spec fn ascending<T: Ord>(s: Seq<T>) -> bool {
    forall|i: int, j: int| 0 <= i < j < s.len() ==> less(#[trigger] s[i], #[trigger] s[j])
}

/// Whether `s` is ascending: one comparison for each pair of neighbours.
pub fn is_ascending<T: Ord>(s: &[T]) -> (r: bool)
    requires
        total_order::<T>(),
    ensures
        r == ascending(s@),
{
    let mut i: usize = 1;
    proof {
        lemma_order_laws::<T>();
    }
    while i < s.len()
        invariant
            total_order::<T>(),
            1 <= i,
            forall|p: int, q: int| 0 <= p < q < i && q < s@.len() ==> less(
                #[trigger] s@[p],
                #[trigger] s@[q],
            ),
            forall|x: T, y: T, z: T| #[trigger] less(x, y) && #[trigger] less(y, z) ==> less(x, z),
        decreases s@.len() - i,
    {
        if !is_less(&s[i - 1], &s[i]) {
            return false;
        }
        proof {
            assert forall|p: int, q: int| 0 <= p < q < i + 1 && q < s@.len() implies less(
                #[trigger] s@[p],
                #[trigger] s@[q],
            ) by {
                if q == i && p < i - 1 {
                    assert(less(s@[p], s@[i - 1]));
                }
            }
        }
        i += 1;
    }
    true
}

/// Some element of `s` is the same as `x`.
pub open spec fn occurs<T: Ord>(s: Seq<T>, x: T) -> bool {
    exists|j: int| 0 <= j < s.len() && same(#[trigger] s[j], x)
}

/// The elements of `a` that also occur in `b`, in the order of `a`.
pub open spec fn common<T: Ord>(a: Seq<T>, b: Seq<T>) -> Seq<T> {
    a.filter(|x: T| occurs(b, x))
}

/// The values behind a sequence of references.
pub open spec fn values<T>(r: Seq<&T>) -> Seq<T> {
    Seq::new(r.len(), |i: int| *r[i])
}

/// The values behind a stack of references, the top of the stack first.
pub open spec fn pending<T>(stack: Seq<&T>) -> Seq<T> {
    Seq::new(stack.len(), |i: int| *stack[stack.len() - 1 - i])
}

/// Splitting `a` at its first element splits `common(a, b)` alike.
pub proof fn lemma_common_front<T: Ord>(a: Seq<T>, b: Seq<T>)
    requires
        a.len() > 0,
    ensures
        common(a, b) == if occurs(b, a[0]) {
            seq![a[0]] + common(a.drop_first(), b)
        } else {
            common(a.drop_first(), b)
        },
{
    let pred = |x: T| occurs(b, x);
    let head = seq![a[0]];
    assert(a =~= head + a.drop_first());
    Seq::filter_distributes_over_add(head, a.drop_first(), pred);
    reveal_with_fuel(Seq::filter, 2);
    assert(head.drop_last() =~= Seq::<T>::empty());
    assert(head.last() == a[0]);
    if occurs(b, a[0]) {
        assert(head.filter(pred) =~= head);
    } else {
        assert(head.filter(pred) =~= Seq::<T>::empty());
        assert(head.filter(pred) + a.drop_first().filter(pred) =~= a.drop_first().filter(pred));
    }
}

/// Splitting `a` at its last element splits `common(a, b)` alike.
pub proof fn lemma_common_back<T: Ord>(a: Seq<T>, b: Seq<T>)
    requires
        a.len() > 0,
    ensures
        common(a, b) == if occurs(b, a.last()) {
            common(a.drop_last(), b).push(a.last())
        } else {
            common(a.drop_last(), b)
        },
{
    reveal_with_fuel(Seq::filter, 2);
}

/// Splitting `a` anywhere splits `common(a, b)` alike.
pub proof fn lemma_common_split<T: Ord>(a: Seq<T>, b: Seq<T>, at: int)
    requires
        0 <= at <= a.len(),
    ensures
        common(a, b) == common(a.subrange(0, at), b) + common(a.skip(at), b),
{
    let pred = |x: T| occurs(b, x);
    assert(a =~= a.subrange(0, at) + a.skip(at));
    Seq::filter_distributes_over_add(a.subrange(0, at), a.skip(at), pred);
}

/// A stretch of `a` none of whose elements occurs in `b` adds nothing.
pub proof fn lemma_common_none<T: Ord>(a: Seq<T>, b: Seq<T>)
    requires
        forall|i: int| 0 <= i < a.len() ==> !occurs(b, #[trigger] a[i]),
    ensures
        common(a, b) == Seq::<T>::empty(),
    decreases a.len(),
{
    if a.len() > 0 {
        lemma_common_back(a, b);
        lemma_common_none(a.drop_last(), b);
    } else {
        reveal_with_fuel(Seq::filter, 1);
    }
}

/// `common(a, b)` holds exactly the elements of `a` that occur in `b`.
pub proof fn lemma_common_contains<T: Ord>(a: Seq<T>, b: Seq<T>, x: T)
    ensures
        common(a, b).contains(x) <==> a.contains(x) && occurs(b, x),
{
    let pred = |x: T| occurs(b, x);
    if common(a, b).contains(x) {
        a.lemma_filter_contains_rev(pred, x);
        let i = choose|i: int| 0 <= i < common(a, b).len() && common(a, b)[i] == x;
        a.lemma_filter_pred(pred, i);
    }
    if a.contains(x) && occurs(b, x) {
        let i = choose|i: int| 0 <= i < a.len() && a[i] == x;
        a.lemma_filter_contains(pred, i);
    }
}

/// What an ascending sequence shares with another is ascending too.
pub proof fn lemma_common_ascending<T: Ord>(a: Seq<T>, b: Seq<T>)
    requires
        total_order::<T>(),
        ascending(a),
    ensures
        ascending(common(a, b)),
    decreases a.len(),
{
    if a.len() > 0 {
        let front = a.drop_last();
        lemma_common_back(a, b);
        lemma_common_ascending(front, b);
        let c = common(front, b);
        if occurs(b, a.last()) {
            let d = c.push(a.last());
            assert forall|i: int, j: int| 0 <= i < j < d.len() implies less(
                #[trigger] d[i],
                #[trigger] d[j],
            ) by {
                if j == c.len() {
                    assert(c.contains(c[i]));
                    lemma_common_contains(front, b, c[i]);
                    let k = choose|k: int| 0 <= k < front.len() && front[k] == c[i];
                    assert(less(a[k], a[a.len() - 1]));
                } else {
                    assert(less(c[i], c[j]));
                }
            }
        }
    } else {
        reveal_with_fuel(Seq::filter, 1);
    }
}

/// Two ascending sequences that hold the same values are one sequence.
pub proof fn lemma_ascending_unique<T: Ord>(p: Seq<T>, q: Seq<T>)
    requires
        total_order::<T>(),
        ascending(p),
        ascending(q),
        forall|x: T| p.contains(x) <==> q.contains(x),
    ensures
        p == q,
    decreases p.len(),
{
    lemma_order_laws::<T>();
    if p.len() == 0 {
        if q.len() > 0 {
            assert(q.contains(q[0]));
        }
        assert(p =~= q);
    } else if q.len() == 0 {
        assert(p.contains(p[0]));
    } else {
        let pl = p.last();
        let ql = q.last();
        assert(p.contains(pl));
        assert(q.contains(ql));
        let i = choose|i: int| 0 <= i < q.len() && q[i] == pl;
        let j = choose|j: int| 0 <= j < p.len() && p[j] == ql;
        if i < q.len() - 1 {
            assert(less(q[i], q[q.len() - 1]));
        }
        if j < p.len() - 1 {
            assert(less(p[j], p[p.len() - 1]));
        }
        assert(pl == ql);
        let p_front = p.drop_last();
        let q_front = q.drop_last();
        assert forall|x: T| p_front.contains(x) <==> q_front.contains(x) by {
            if p_front.contains(x) {
                let k = choose|k: int| 0 <= k < p_front.len() && p_front[k] == x;
                assert(less(p[k], p[p.len() - 1]));
                assert(p.contains(p[k]));
                let m = choose|m: int| 0 <= m < q.len() && q[m] == x;
                assert(q_front[m] == x);
            }
            if q_front.contains(x) {
                let k = choose|k: int| 0 <= k < q_front.len() && q_front[k] == x;
                assert(less(q[k], q[q.len() - 1]));
                assert(q.contains(q[k]));
                let m = choose|m: int| 0 <= m < p.len() && p[m] == x;
                assert(p_front[m] == x);
            }
        }
        lemma_ascending_unique(p_front, q_front);
        assert(p =~= p_front.push(pl));
        assert(q =~= q_front.push(ql));
    }
}

/// Two ascending sequences in each of which every element of the other occurs
/// have the same length, and the same elements place by place.
pub proof fn lemma_ascending_alike<T: Ord>(p: Seq<T>, q: Seq<T>)
    requires
        total_order::<T>(),
        ascending(p),
        ascending(q),
        forall|i: int| 0 <= i < p.len() ==> occurs(q, #[trigger] p[i]),
        forall|i: int| 0 <= i < q.len() ==> occurs(p, #[trigger] q[i]),
    ensures
        p.len() == q.len(),
        forall|i: int| 0 <= i < p.len() ==> same(#[trigger] p[i], q[i]),
    decreases p.len(),
{
    lemma_order_laws::<T>();
    if p.len() == 0 {
        if q.len() > 0 {
            assert(occurs(p, q[0]));
        }
    } else if q.len() == 0 {
        assert(occurs(q, p[0]));
    } else {
        let pl = p.last();
        let ql = q.last();
        assert(occurs(q, p[p.len() - 1]));
        assert(occurs(p, q[q.len() - 1]));
        let i = choose|i: int| 0 <= i < q.len() && same(#[trigger] q[i], pl);
        let j = choose|j: int| 0 <= j < p.len() && same(#[trigger] p[j], ql);
        if i < q.len() - 1 {
            assert(less(q[i], q[q.len() - 1]));
            assert(same(pl, q[i]));
            lemma_same_less(pl, q[i], ql);
        }
        if j < p.len() - 1 {
            assert(less(p[j], p[p.len() - 1]));
            assert(same(ql, p[j]));
            lemma_same_less(ql, p[j], pl);
        }
        assert(same(pl, ql));
        let p_front = p.drop_last();
        let q_front = q.drop_last();
        assert forall|k: int| 0 <= k < p_front.len() implies occurs(
            q_front,
            #[trigger] p_front[k],
        ) by {
            assert(less(p[k], p[p.len() - 1]));
            assert(occurs(q, p[k]));
            let m = choose|m: int| 0 <= m < q.len() && same(#[trigger] q[m], p[k]);
            if m == q.len() - 1 {
                assert(same(p[k], ql));
                assert(same(ql, pl));
                lemma_same_same(p[k], ql, pl);
            }
            assert(same(q_front[m], p_front[k]));
        }
        assert forall|k: int| 0 <= k < q_front.len() implies occurs(
            p_front,
            #[trigger] q_front[k],
        ) by {
            assert(less(q[k], q[q.len() - 1]));
            assert(occurs(p, q[k]));
            let m = choose|m: int| 0 <= m < p.len() && same(#[trigger] p[m], q[k]);
            if m == p.len() - 1 {
                assert(same(q[k], pl));
                lemma_same_same(q[k], pl, ql);
            }
            assert(same(p_front[m], q_front[k]));
        }
        lemma_ascending_alike(p_front, q_front);
        assert forall|k: int| 0 <= k < p.len() implies same(#[trigger] p[k], q[k]) by {
            if k < p.len() - 1 {
                assert(same(p_front[k], q_front[k]));
            }
        }
    }
}

/// For ascending sequences it matters little which of the two is filtered: the
/// two results have the same length, and the same elements place by place.
pub proof fn lemma_common_commutes<T: Ord>(a: Seq<T>, b: Seq<T>)
    requires
        total_order::<T>(),
        ascending(a),
        ascending(b),
    ensures
        common(a, b).len() == common(b, a).len(),
        forall|i: int|
            0 <= i < common(a, b).len() ==> same(#[trigger] common(a, b)[i], common(b, a)[i]),
{
    lemma_order_laws::<T>();
    lemma_common_ascending(a, b);
    lemma_common_ascending(b, a);
    let p = common(a, b);
    let q = common(b, a);
    assert forall|i: int| 0 <= i < p.len() implies occurs(q, #[trigger] p[i]) by {
        lemma_common_mutual(a, b, p[i]);
    }
    assert forall|i: int| 0 <= i < q.len() implies occurs(p, #[trigger] q[i]) by {
        lemma_common_mutual(b, a, q[i]);
    }
    lemma_ascending_alike(p, q);
}

/// Each element of `common(a, b)` occurs in `common(b, a)`.
pub proof fn lemma_common_mutual<T: Ord>(a: Seq<T>, b: Seq<T>, x: T)
    requires
        total_order::<T>(),
        common(a, b).contains(x),
    ensures
        occurs(common(b, a), x),
{
    lemma_order_laws::<T>();
    lemma_common_contains(a, b, x);
    let j = choose|j: int| 0 <= j < b.len() && same(#[trigger] b[j], x);
    let i = choose|i: int| 0 <= i < a.len() && a[i] == x;
    assert(same(a[i], b[j]));
    assert(occurs(a, b[j]));
    assert(b.contains(b[j]));
    lemma_common_contains(b, a, b[j]);
    let k = choose|k: int| 0 <= k < common(b, a).len() && common(b, a)[k] == b[j];
    assert(same(common(b, a)[k], x));
}

} // verus!
