//! Single-key galloping intersection: probe ahead in doubling steps, then
//! search the probed range.

use crate::model::{
    ascending, common, lemma_common_back, lemma_common_none, lemma_common_split, occurs, values,
};
use crate::order::{
    is_less, is_same, lemma_order_laws, lemma_same_less, less, same, total_order,
};
use crate::search::lower_bound;
use vstd::prelude::*;

verus! {

/// The end of the range that galloping from `from` probes for `key`: steps of
/// 1, 2, 4, .. are tried while the element there is less than `key`, and the
/// range never reaches past the end of `s`.
pub fn gallop_end<T: Ord>(s: &[T], from: usize, key: &T) -> (end: usize)
    requires
        total_order::<T>(),
        from < s.len(),
    ensures
        from < end <= s.len(),
        end < s.len() ==> !less(s@[end as int], *key),
        forall|step: int|
            1 <= step < end - from && is_doubling(step) ==> less(#[trigger] s@[from + step], *key),
        end == s.len() || is_doubling(end - from),
{
    let room: usize = s.len() - from;
    let mut step: usize = 1;
    proof {
        lemma_doubling_gap(1);
    }
    while step < room && is_less(&s[from + step], key)
        invariant
            total_order::<T>(),
            1 <= step <= room,
            room == s@.len() - from,
            from < s@.len() <= usize::MAX,
            step == room || is_doubling(step as int),
            forall|d: int| 1 <= d < step && is_doubling(d) ==> less(#[trigger] s@[from + d], *key),
        decreases room - step,
    {
        proof {
            lemma_doubling_gap(step as int);
        }
        step = if step <= room - step {
            step + step
        } else {
            room
        };
    }
    from + step
}

/// `n` is a power of two.
pub open spec fn is_doubling(n: int) -> bool
    decreases n,
{
    n == 1 || (n > 1 && n % 2 == 0 && is_doubling(n / 2))
}

/// No power of two lies strictly between `n` and `2 * n`.
pub proof fn lemma_doubling_gap(n: int)
    requires
        is_doubling(n),
    ensures
        is_doubling(2 * n),
        forall|d: int| n < d < 2 * n ==> !is_doubling(d),
    decreases n,
{
    assert(is_doubling(2 * n)) by {
        assert((2 * n) / 2 == n);
    }
    if n > 1 {
        lemma_doubling_gap(n / 2);
        assert forall|d: int| n < d < 2 * n implies !is_doubling(d) by {
            if is_doubling(d) {
                assert(n % 2 == 0);
                assert(d % 2 == 0);
                assert(n / 2 < d / 2 < n);
                assert(is_doubling(d / 2));
            }
        }
    } else {
        assert forall|d: int| n < d < 2 * n implies !is_doubling(d) by {}
    }
}

/// The elements of `a` that occur in `b`, in order.
pub fn galloping_intersect<'a, T: Ord>(a: &'a [T], b: &'a [T]) -> (result: Vec<&'a T>)
    requires
        total_order::<T>(),
        ascending(a@),
        ascending(b@),
    ensures
        values(result@) == common(a@, b@),
{
    let mut i: usize = 0;
    let mut j: usize = 0;
    let mut result: Vec<&'a T> = Vec::new();
    proof {
        lemma_order_laws::<T>();
        assert(a@.subrange(0, 0) =~= Seq::<T>::empty());
        lemma_common_none(a@.subrange(0, 0), b@);
        assert(values(result@) =~= Seq::<T>::empty());
    }
    while i < a.len() && j < b.len()
        invariant
            total_order::<T>(),
            ascending(a@),
            ascending(b@),
            i <= a@.len(),
            j <= b@.len(),
            values(result@) == common(a@.subrange(0, i as int), b@),
            forall|p: int, q: int|
                0 <= p < i && j <= q < b@.len() ==> less(#[trigger] a@[p], #[trigger] b@[q]),
            forall|p: int, q: int|
                0 <= q < j && i <= p < a@.len() ==> less(#[trigger] b@[q], #[trigger] a@[p]),
            forall|x: T, y: T, z: T| #[trigger] less(x, y) && #[trigger] less(y, z) ==> less(x, z),
            forall|x: T, y: T| #[trigger] less(x, y) ==> !less(y, x) && !same(x, y) && !same(y, x),
            forall|x: T, y: T| !#[trigger] less(x, y) && !same(x, y) ==> less(y, x),
            forall|x: T, y: T| #[trigger] same(x, y) ==> same(y, x),
        decreases (a@.len() - i) + (b@.len() - j),
    {
        if is_same(&a[i], &b[j]) {
            let ghost got = result@;
            result.push(&a[i]);
            proof {
                let upto = a@.subrange(0, i + 1);
                lemma_common_back(upto, b@);
                assert(upto.drop_last() =~= a@.subrange(0, i as int));
                assert(same(b@[j as int], upto.last()));
                assert(occurs(b@, upto.last()));
                assert(values(result@) =~= values(got).push(a@[i as int]));
                assert forall|p: int, q: int| 0 <= p < i + 1 && j + 1 <= q < b@.len() implies less(
                    #[trigger] a@[p],
                    #[trigger] b@[q],
                ) by {
                    if p == i {
                        assert(less(b@[j as int], b@[q]));
                        lemma_same_less(a@[i as int], b@[j as int], b@[q]);
                    }
                }
                assert forall|p: int, q: int| 0 <= q < j + 1 && i + 1 <= p < a@.len() implies less(
                    #[trigger] b@[q],
                    #[trigger] a@[p],
                ) by {
                    if q == j {
                        assert(less(a@[i as int], a@[p]));
                        lemma_same_less(b@[j as int], a@[i as int], a@[p]);
                    }
                }
            }
            i += 1;
            j += 1;
        } else if is_less(&a[i], &b[j]) {
            let end: usize = gallop_end(a, i, &b[j]);
            let next: usize = lower_bound(a, i, end, &b[j]);
            proof {
                let key = b@[j as int];
                assert(next > i) by {
                    if next == i {
                        assert(!less(a@[i as int], key));
                    }
                }
                assert forall|p: int, q: int| 0 <= p < next && j <= q < b@.len() implies less(
                    #[trigger] a@[p],
                    #[trigger] b@[q],
                ) by {
                    if p >= i {
                        assert(less(a@[p], key));
                        if q > j {
                            assert(less(b@[j as int], b@[q]));
                        }
                    }
                }
                let upto = a@.subrange(0, next as int);
                let skipped = upto.skip(i as int);
                assert forall|m: int| 0 <= m < skipped.len() implies !occurs(
                    b@,
                    #[trigger] skipped[m],
                ) by {
                    if occurs(b@, skipped[m]) {
                        let q = choose|q: int| 0 <= q < b@.len() && same(#[trigger] b@[q], skipped[m]);
                        if q < j {
                            assert(less(b@[q], a@[i + m]));
                        } else {
                            assert(less(a@[i + m], b@[q]));
                        }
                    }
                }
                lemma_common_none(skipped, b@);
                lemma_common_split(upto, b@, i as int);
                assert(upto.subrange(0, i as int) =~= a@.subrange(0, i as int));
                assert(common(upto, b@) =~= common(a@.subrange(0, i as int), b@));
            }
            i = next;
        } else {
            let end: usize = gallop_end(b, j, &a[i]);
            let next: usize = lower_bound(b, j, end, &a[i]);
            proof {
                let key = a@[i as int];
                assert(less(b@[j as int], key));
                assert(next > j) by {
                    if next == j {
                        assert(!less(b@[j as int], key));
                    }
                }
                assert forall|p: int, q: int| 0 <= q < next && i <= p < a@.len() implies less(
                    #[trigger] b@[q],
                    #[trigger] a@[p],
                ) by {
                    if q >= j {
                        assert(less(b@[q], key));
                        if p > i {
                            assert(less(a@[i as int], a@[p]));
                        }
                    }
                }
            }
            j = next;
        }
    }
    proof {
        let rest = a@.skip(i as int);
        assert forall|m: int| 0 <= m < rest.len() implies !occurs(b@, #[trigger] rest[m]) by {
            if occurs(b@, rest[m]) {
                let q = choose|q: int| 0 <= q < b@.len() && same(#[trigger] b@[q], rest[m]);
                assert(less(b@[q], a@[i + m]));
            }
        }
        lemma_common_none(rest, b@);
        lemma_common_split(a@, b@, i as int);
        assert(common(a@, b@) =~= common(a@.subrange(0, i as int), b@));
    }
    result
}

} // verus!
