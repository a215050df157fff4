//! Lower-bound search in an ascending sequence: one key at a time, and a batch
//! of keys advanced in lock-step.

use crate::model::{ascending, occurs};
use crate::order::{is_less, lemma_less_same, lemma_order_laws, less, same, total_order};
use vstd::arithmetic::power2::{lemma2_to64, lemma_pow2_unfold, pow2};
use vstd::prelude::*;

verus! {

/// `idx` is the lower bound of `key` in `s[start..end]`: the first position of
/// that window whose element is not less than `key`, or `end` if there is none.
pub open spec fn is_lower_bound<T: Ord>(s: Seq<T>, start: int, end: int, key: T, idx: int) -> bool {
    &&& start <= idx <= end
    &&& forall|j: int| start <= j < idx ==> less(#[trigger] s[j], key)
    &&& forall|j: int| idx <= j < end ==> !less(#[trigger] s[j], key)
}

/// What one lane knows between two halving rounds: everything of the window
/// before `base` is less than `key`, and nothing from `base + width` on is.
pub open spec fn lane_bracket<T: Ord>(s: Seq<T>, start: int, key: T, base: int, width: int) -> bool {
    &&& 0 <= start <= base
    &&& 1 <= width
    &&& base + width <= s.len()
    &&& forall|j: int| start <= j < base ==> less(#[trigger] s[j], key)
    &&& forall|j: int| base + width <= j < s.len() ==> !less(#[trigger] s[j], key)
}

/// How many halving rounds bring a window of `width` elements down to one:
/// each round keeps the upper half, rounded up.
pub open spec fn halving_rounds(width: nat) -> nat
    decreases width,
{
    if width <= 1 {
        0
    } else {
        1 + halving_rounds((width - width / 2) as nat)
    }
}

/// The number of halving rounds is the logarithm of the width to base two,
/// rounded up: the least `r` with `width <= 2^r`.
pub proof fn lemma_halving_rounds_is_log(width: nat)
    requires
        width >= 1,
    ensures
        width <= pow2(halving_rounds(width)),
        width > 1 ==> pow2((halving_rounds(width) - 1) as nat) < width,
    decreases width,
{
    if width == 1 {
        lemma2_to64();
    } else {
        let rest = (width - width / 2) as nat;
        lemma_halving_rounds_is_log(rest);
        lemma_pow2_unfold(halving_rounds(width));
        if rest > 1 {
            lemma_pow2_unfold(halving_rounds(rest));
        } else {
            lemma2_to64();
        }
    }
}

/// The base of a lane after a halving round that found `moved`.
pub open spec fn next_base(base: int, width: int, moved: bool) -> int {
    if moved {
        base + width / 2
    } else {
        base
    }
}

/// One halving round keeps a lane's bracket.
pub proof fn lemma_lane_round<T: Ord>(s: Seq<T>, start: int, key: T, base: int, width: int)
    requires
        total_order::<T>(),
        ascending(s),
        lane_bracket(s, start, key, base, width),
        width > 1,
    ensures
        0 <= base + width / 2 < s.len(),
        lane_bracket(
            s,
            start,
            key,
            next_base(base, width, less(s[base + width / 2], key)),
            width - width / 2,
        ),
{
    lemma_order_laws::<T>();
    let half = width / 2;
    let probe = s[base + half];
    if less(probe, key) {
        assert forall|j: int| start <= j < base + half implies less(#[trigger] s[j], key) by {
            if j >= base {
                assert(less(s[j], s[base + half]));
            }
        }
    } else {
        assert forall|j: int| base + (width - half) <= j < s.len() implies !less(
            #[trigger] s[j],
            key,
        ) by {
            if j > base + half {
                assert(less(s[base + half], s[j]));
            }
        }
    }
}

/// A bracket of width one leaves two candidates, and one comparison decides.
pub proof fn lemma_lane_finish<T: Ord>(s: Seq<T>, start: int, key: T, base: int)
    requires
        total_order::<T>(),
        ascending(s),
        lane_bracket(s, start, key, base, 1),
    ensures
        is_lower_bound(
            s,
            start,
            s.len() as int,
            key,
            if less(s[base], key) {
                base + 1
            } else {
                base
            },
        ),
{
    lemma_order_laws::<T>();
    if !less(s[base], key) {
        assert forall|j: int| base <= j < s.len() implies !less(#[trigger] s[j], key) by {
            if j > base {
                assert(less(s[base], s[j]));
            }
        }
    }
}

/// In an ascending sequence a window has one lower bound for a key.
pub proof fn lemma_lower_bound_unique<T: Ord>(
    s: Seq<T>,
    start: int,
    end: int,
    key: T,
    idx1: int,
    idx2: int,
)
    requires
        0 <= start <= end <= s.len(),
        is_lower_bound(s, start, end, key, idx1),
        is_lower_bound(s, start, end, key, idx2),
    ensures
        idx1 == idx2,
{
    if idx1 < idx2 {
        assert(less(s[idx1], key));
    }
    if idx2 < idx1 {
        assert(less(s[idx2], key));
    }
}

/// Where everything before the window is less than `key`, the key occurs in
/// `s` exactly if the element at its lower bound is the same as the key.
pub proof fn lemma_found_at_lower_bound<T: Ord>(s: Seq<T>, start: int, key: T, idx: int)
    requires
        total_order::<T>(),
        ascending(s),
        0 <= start <= s.len(),
        is_lower_bound(s, start, s.len() as int, key, idx),
        forall|j: int| 0 <= j < start ==> less(#[trigger] s[j], key),
    ensures
        occurs(s, key) <==> (idx < s.len() && same(s[idx], key)),
{
    lemma_order_laws::<T>();
    if occurs(s, key) {
        let j = choose|j: int| 0 <= j < s.len() && same(#[trigger] s[j], key);
        if j < idx {
            assert(less(s[j], key));
        } else if j > idx {
            assert(less(s[idx], s[j]));
            lemma_less_same(s[idx], s[j], key);
        }
    }
}

/// The lower bound of `key` in `s[start..end]`, by binary search.
pub fn lower_bound<T: Ord>(s: &[T], start: usize, end: usize, key: &T) -> (idx: usize)
    requires
        total_order::<T>(),
        ascending(s@),
        start <= end <= s.len(),
    ensures
        is_lower_bound(s@, start as int, end as int, *key, idx as int),
{
    let mut lo: usize = start;
    let mut hi: usize = end;
    proof {
        lemma_order_laws::<T>();
    }
    while lo < hi
        invariant
            total_order::<T>(),
            ascending(s@),
            start <= lo <= hi <= end <= s.len(),
            forall|j: int| start <= j < lo ==> less(#[trigger] s@[j], *key),
            forall|j: int| hi <= j < end ==> !less(#[trigger] s@[j], *key),
            forall|x: T, y: T, z: T| #[trigger] less(x, y) && #[trigger] less(y, z) ==> less(x, z),
        decreases hi - lo,
    {
        let mid: usize = lo + (hi - lo) / 2;
        if is_less(&s[mid], key) {
            assert forall|j: int| start <= j < mid + 1 implies less(#[trigger] s@[j], *key) by {
                if lo <= j < mid {
                    assert(less(s@[j], s@[mid as int]));
                }
            }
            lo = mid + 1;
        } else {
            assert forall|j: int| mid <= j < end implies !less(#[trigger] s@[j], *key) by {
                if mid < j < hi {
                    assert(less(s@[mid as int], s@[j]));
                }
            }
            hi = mid;
        }
    }
    lo
}

/// The lower bounds of `lanes` consecutive keys, `keys[first..first + lanes]`,
/// in the window `longer[start..]`, all lanes advanced together: each halving
/// round moves every lane once, so every lane runs the same number of rounds.
/// On return `bases[k]` is the lower bound of `keys[first + k]`; the result is
/// the number of rounds, which depends on the window's width alone. A lane
/// moves by adding either the half width or zero to its base, so that a round
/// is one comparison and one addition per lane, with no branch on the outcome.
/// An empty window takes no round and leaves every lane at its end.
pub fn batch_lower_bounds<T: Ord>(
    longer: &[T],
    start: usize,
    keys: &[T],
    first: usize,
    lanes: usize,
    bases: &mut Vec<usize>,
) -> (rounds: usize)
    requires
        total_order::<T>(),
        ascending(longer@),
        start <= longer.len(),
        first + lanes <= keys.len(),
    ensures
        rounds == halving_rounds((longer@.len() - start) as nat),
        final(bases)@.len() == lanes,
        forall|k: int|
            0 <= k < lanes ==> is_lower_bound(
                longer@,
                start as int,
                longer@.len() as int,
                #[trigger] keys@[first + k],
                final(bases)@[k] as int,
            ),
{
    bases.clear();
    let mut k: usize = 0;
    while k < lanes
        invariant
            k <= lanes,
            bases@.len() == k,
            forall|i: int| 0 <= i < k ==> #[trigger] bases@[i] == start,
        decreases lanes - k,
    {
        bases.push(start);
        k += 1;
    }
    let mut width: usize = longer.len() - start;
    let mut rounds: usize = 0;
    if width == 0 {
        return rounds;
    }
    while width > 1
        invariant
            1 <= width,
            rounds + width <= longer@.len(),
            rounds + halving_rounds(width as nat) == halving_rounds(
                (longer@.len() - start) as nat,
            ),
            total_order::<T>(),
            ascending(longer@),
            first + lanes <= keys.len(),
            bases@.len() == lanes,
            longer@.len() <= usize::MAX,
            forall|i: int|
                0 <= i < lanes ==> lane_bracket(
                    longer@,
                    start as int,
                    keys@[first + i],
                    #[trigger] bases@[i] as int,
                    width as int,
                ),
        decreases width,
    {
        let half: usize = width / 2;
        let mut k: usize = 0;
        while k < lanes
            invariant
                total_order::<T>(),
                ascending(longer@),
                first + lanes <= keys.len(),
                bases@.len() == lanes,
                k <= lanes,
                width > 1,
                longer@.len() <= usize::MAX,
                half == width / 2,
                forall|i: int|
                    0 <= i < k ==> lane_bracket(
                        longer@,
                        start as int,
                        keys@[first + i],
                        #[trigger] bases@[i] as int,
                        width - half,
                    ),
                forall|i: int|
                    k <= i < lanes ==> lane_bracket(
                        longer@,
                        start as int,
                        keys@[first + i],
                        #[trigger] bases@[i] as int,
                        width as int,
                    ),
            decreases lanes - k,
        {
            let base: usize = bases[k];
            proof {
                lemma_lane_round(
                    longer@,
                    start as int,
                    keys@[first + k],
                    base as int,
                    width as int,
                );
            }
            let moved = is_less(&longer[base + half], &keys[first + k]);
            let step: usize = if moved {
                half
            } else {
                0
            };
            bases.set(k, base + step);
            k += 1;
        }
        width -= half;
        rounds += 1;
    }
    let mut k: usize = 0;
    while k < lanes
        invariant
            total_order::<T>(),
            ascending(longer@),
            first + lanes <= keys.len(),
            bases@.len() == lanes,
            k <= lanes,
            longer@.len() <= usize::MAX,
            forall|i: int|
                0 <= i < k ==> is_lower_bound(
                    longer@,
                    start as int,
                    longer@.len() as int,
                    keys@[first + i],
                    #[trigger] bases@[i] as int,
                ),
            forall|i: int|
                k <= i < lanes ==> lane_bracket(
                    longer@,
                    start as int,
                    keys@[first + i],
                    #[trigger] bases@[i] as int,
                    1,
                ),
        decreases lanes - k,
    {
        let base: usize = bases[k];
        proof {
            lemma_lane_finish(longer@, start as int, keys@[first + k], base as int);
        }
        let above = is_less(&longer[base], &keys[first + k]);
        let step: usize = if above {
            1
        } else {
            0
        };
        bases.set(k, base + step);
        k += 1;
    }
    assert forall|k: int| 0 <= k < lanes implies is_lower_bound(
        longer@,
        start as int,
        longer@.len() as int,
        #[trigger] keys@[first + k],
        bases@[k] as int,
    ) by {
        assert(is_lower_bound(
            longer@,
            start as int,
            longer@.len() as int,
            keys@[first + k],
            bases@[k] as int,
        ));
    }
    rounds
}

} // verus!
