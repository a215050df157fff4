//! The batched producer: a pull-driven traversal of what two ascending
//! sequences share.

use crate::model::{
    ascending, common, lemma_common_front, lemma_common_none, lemma_common_split, occurs, pending,
    values,
};
use crate::order::{is_same, lemma_order_laws, less, same, total_order};
use crate::search::{batch_lower_bounds, is_lower_bound, lemma_found_at_lower_bound, lower_bound};
use vstd::prelude::*;

verus! {

/// How many keys of the shorter sequence one batch searches together.
#[derive(Clone, Copy, Debug, PartialEq, Eq)]
pub enum BatchWidth {
    Four,
    Eight,
    Sixteen,
    ThirtyTwo,
}

impl BatchWidth {
    /// The number of lanes, as contracts speak of it.
    pub open spec fn lanes_spec(self) -> nat {
        match self {
            BatchWidth::Four => 4,
            BatchWidth::Eight => 8,
            BatchWidth::Sixteen => 16,
            BatchWidth::ThirtyTwo => 32,
        }
    }

    /// The number of lanes.
    pub fn lanes(self) -> (n: usize)
        ensures
            n == self.lanes_spec(),
    {
        match self {
            BatchWidth::Four => 4,
            BatchWidth::Eight => 8,
            BatchWidth::Sixteen => 16,
            BatchWidth::ThirtyTwo => 32,
        }
    }
}

/// Where a traversal stands between two pulls.
#[derive(Clone, Copy, Debug, PartialEq, Eq)]
pub enum Phase {
    /// The stack is empty and both sequences have elements left to search.
    AwaitingBatch,
    /// Matches of the batch searched last wait in the stack.
    DrainingBuffer,
    /// The stack is empty and one of the cursors has reached its end.
    Exhausted,
}

/// Of two sequences, the one with fewer elements; the second if both have the
/// same length.
pub open spec fn shorter_of<T>(a: Seq<T>, b: Seq<T>) -> Seq<T> {
    if a.len() < b.len() {
        a
    } else {
        b
    }
}

/// Of two sequences, the one that `shorter_of` leaves.
pub open spec fn longer_of<T>(a: Seq<T>, b: Seq<T>) -> Seq<T> {
    if a.len() < b.len() {
        b
    } else {
        a
    }
}

/// A traversal in progress. Matches of the batch searched last wait in a small
/// stack, its top the least of them; the two cursors only move forward.
pub struct ShotgunIntersection<'a, T> {
    shorter: &'a [T],
    longer: &'a [T],
    i_s: usize,
    i_l: usize,
    lanes: usize,
    buf: Vec<&'a T>,
    bases: Vec<usize>,
}

impl<'a, T: Ord> ShotgunIntersection<'a, T> {
    /// The traversal's invariant: both inputs ascending, both cursors in range,
    /// the stack within the batch width, and every element of the longer input
    /// before its cursor less than every key of the shorter input from its
    /// cursor on.
    pub closed spec fn wf(&self) -> bool {
        &&& total_order::<T>()
        &&& ascending(self.shorter@)
        &&& ascending(self.longer@)
        &&& 1 <= self.lanes <= 32
        &&& self.i_s <= self.shorter@.len()
        &&& self.i_l <= self.longer@.len()
        &&& self.buf@.len() <= self.lanes
        &&& forall|j: int, k: int|
            0 <= j < self.i_l && self.i_s <= k < self.shorter@.len() ==> less(
                #[trigger] self.longer@[j],
                #[trigger] self.shorter@[k],
            )
    }

    /// What the traversal has yet to hand out, in order.
    pub closed spec fn remaining(&self) -> Seq<T> {
        pending(self.buf@) + common(self.shorter@.skip(self.i_s as int), self.longer@)
    }

    /// The batch width the traversal was made with.
    pub closed spec fn width(&self) -> nat {
        self.lanes as nat
    }

    /// How many matches wait in the stack.
    pub closed spec fn buffered(&self) -> nat {
        self.buf@.len()
    }

    /// How far the traversal has come in the shorter sequence.
    pub closed spec fn cursor_shorter(&self) -> nat {
        self.i_s as nat
    }

    /// Where the window of the longer sequence begins.
    pub closed spec fn cursor_longer(&self) -> nat {
        self.i_l as nat
    }

    /// The sequence that plays the part of the shorter one.
    pub closed spec fn shorter(&self) -> Seq<T> {
        self.shorter@
    }

    /// The sequence that plays the part of the longer one.
    pub closed spec fn longer(&self) -> Seq<T> {
        self.longer@
    }

    /// Where the traversal stands: draining while matches wait in the stack,
    /// else exhausted once a cursor has reached the end of its sequence.
    pub open spec fn phase_spec(&self) -> Phase {
        if self.buffered() > 0 {
            Phase::DrainingBuffer
        } else if self.cursor_shorter() >= self.shorter().len() || self.cursor_longer()
            >= self.longer().len() {
            Phase::Exhausted
        } else {
            Phase::AwaitingBatch
        }
    }

    /// Where the traversal stands.
    pub fn phase(&self) -> (p: Phase)
        ensures
            p == self.phase_spec(),
    {
        if self.buf.len() > 0 {
            Phase::DrainingBuffer
        } else if self.i_s >= self.shorter.len() || self.i_l >= self.longer.len() {
            Phase::Exhausted
        } else {
            Phase::AwaitingBatch
        }
    }

    /// An exhausted traversal has nothing left to hand out.
    pub proof fn lemma_exhausted_is_empty(&self)
        requires
            self.wf(),
        ensures
            self.phase_spec() == Phase::Exhausted ==> self.remaining().len() == 0,
    {
        if self.phase_spec() == Phase::Exhausted {
            lemma_order_laws::<T>();
            let rest = self.shorter@.skip(self.i_s as int);
            assert forall|i: int| 0 <= i < rest.len() implies !occurs(
                self.longer@,
                #[trigger] rest[i],
            ) by {
                if occurs(self.longer@, rest[i]) {
                    let j = choose|j: int|
                        0 <= j < self.longer@.len() && same(#[trigger] self.longer@[j], rest[i]);
                    assert(less(self.longer@[j], self.shorter@[self.i_s + i]));
                }
            }
            lemma_common_none(rest, self.longer@);
            assert(pending(self.buf@) =~= Seq::<T>::empty());
            assert(self.remaining() =~= Seq::<T>::empty());
        }
    }

    /// The window of the longer sequence begins at a safe place: every element
    /// before it is less than every key that the shorter sequence has yet to
    /// offer, so none of those keys can occur there.
    pub proof fn lemma_window_is_safe(&self)
        requires
            self.wf(),
        ensures
            self.cursor_shorter() <= self.shorter().len(),
            self.cursor_longer() <= self.longer().len(),
            forall|j: int, k: int|
                0 <= j < self.cursor_longer() && self.cursor_shorter() <= k < self.shorter().len()
                    ==> less(#[trigger] self.longer()[j], #[trigger] self.shorter()[k]),
    {
    }

    /// The stack never holds more than one batch, and a batch is at most 32 keys.
    pub proof fn lemma_buffer_bounded(&self)
        requires
            self.wf(),
        ensures
            self.buffered() <= self.width() <= 32,
    {
    }

    /// A fresh traversal of what `a` and `b` share. The sequence with fewer
    /// elements becomes the shorter one; of two with equal length, `b`. The
    /// traversal hands out elements of the shorter one.
    pub fn new(a: &'a [T], b: &'a [T], width: BatchWidth) -> (r: Self)
        requires
            total_order::<T>(),
            ascending(a@),
            ascending(b@),
        ensures
            r.wf(),
            r.remaining() == common(shorter_of(a@, b@), longer_of(a@, b@)),
            r.width() == width.lanes_spec(),
            r.buffered() == 0,
            r.cursor_shorter() == 0,
            r.cursor_longer() == 0,
            r.shorter() == shorter_of(a@, b@),
            r.longer() == longer_of(a@, b@),
    {
        let (shorter, longer) = if a.len() < b.len() {
            (a, b)
        } else {
            (b, a)
        };
        let lanes: usize = width.lanes();
        let r = ShotgunIntersection {
            shorter,
            longer,
            i_s: 0,
            i_l: 0,
            lanes,
            buf: Vec::with_capacity(lanes),
            bases: Vec::with_capacity(lanes),
        };
        proof {
            assert(shorter@.skip(0) =~= shorter@);
            assert(pending(r.buf@) =~= Seq::<T>::empty());
            assert(r.remaining() =~= common(shorter@, longer@));
        }
        r
    }

    /// Takes the top of the stack.
    fn pop_pending(&mut self) -> (r: Option<&'a T>)
        requires
            old(self).wf(),
            old(self).buf@.len() > 0,
        ensures
            final(self).wf(),
            final(self).lanes == old(self).lanes,
            final(self).shorter == old(self).shorter,
            final(self).longer == old(self).longer,
            final(self).i_s == old(self).i_s,
            final(self).i_l == old(self).i_l,
            final(self).buf@.len() == old(self).buf@.len() - 1,
            r is Some,
            *r->0 == old(self).remaining()[0],
            final(self).remaining() == old(self).remaining().drop_first(),
    {
        let ghost rest = common(self.shorter@.skip(self.i_s as int), self.longer@);
        let ghost before = self.buf@;
        let r = self.buf.pop();
        proof {
            assert(pending(self.buf@) =~= pending(before).drop_first());
            assert((pending(before) + rest).drop_first() =~= pending(self.buf@) + rest);
        }
        r
    }

    /// Searches one full batch of keys and stacks its matches, the greatest
    /// first, then moves both cursors past the batch: the window of the longer
    /// sequence now begins at the lower bound of the batch's greatest key.
    fn run_batch(&mut self)
        requires
            old(self).wf(),
            old(self).buf@.len() == 0,
            old(self).lanes <= old(self).shorter@.len() - old(self).i_s,
            old(self).i_l < old(self).longer@.len(),
        ensures
            final(self).wf(),
            final(self).lanes == old(self).lanes,
            final(self).shorter == old(self).shorter,
            final(self).longer == old(self).longer,
            final(self).i_s == old(self).i_s + old(self).lanes,
            is_lower_bound(
                old(self).longer@,
                old(self).i_l as int,
                old(self).longer@.len() as int,
                old(self).shorter@[old(self).i_s + old(self).lanes - 1],
                final(self).i_l as int,
            ),
            pending(final(self).buf@) == common(
                old(self).shorter@.subrange(
                    old(self).i_s as int,
                    old(self).i_s + old(self).lanes,
                ),
                old(self).longer@,
            ),
            final(self).remaining() == old(self).remaining(),
    {
        let shorter = self.shorter;
        let longer = self.longer;
        let lanes: usize = self.lanes;
        let i_s: usize = self.i_s;
        let i_l: usize = self.i_l;
        let len_l: usize = longer.len();
        let len_s: usize = shorter.len();
        let ghost before = self.remaining();
        proof {
            lemma_order_laws::<T>();
            assert(pending(self.buf@) =~= Seq::<T>::empty());
            assert(before =~= common(shorter@.skip(i_s as int), longer@));
        }
        batch_lower_bounds(longer, i_l, shorter, i_s, lanes, &mut self.bases);
        let mut k: usize = lanes;
        proof {
            assert(shorter@.subrange(i_s + lanes, i_s + lanes) =~= Seq::<T>::empty());
            lemma_common_none(shorter@.subrange(i_s + lanes, i_s + lanes), longer@);
        }
        while k > 0
            invariant
                total_order::<T>(),
                ascending(shorter@),
                ascending(longer@),
                k <= lanes,
                i_s + lanes <= len_s == shorter@.len(),
                i_l < len_l == longer@.len(),
                self.shorter == shorter,
                self.longer == longer,
                self.lanes == lanes,
                self.i_s == i_s,
                self.i_l == i_l,
                self.bases@.len() == lanes,
                self.buf@.len() <= lanes - k,
                pending(self.buf@) == common(
                    shorter@.subrange(i_s + k, i_s + lanes),
                    longer@,
                ),
                forall|j: int, m: int|
                    0 <= j < i_l && i_s <= m < shorter@.len() ==> less(
                        #[trigger] longer@[j],
                        #[trigger] shorter@[m],
                    ),
                forall|m: int|
                    0 <= m < lanes ==> is_lower_bound(
                        longer@,
                        i_l as int,
                        longer@.len() as int,
                        #[trigger] shorter@[i_s + m],
                        self.bases@[m] as int,
                    ),
            decreases k,
        {
            k -= 1;
            let idx: usize = self.bases[k];
            let key = &shorter[i_s + k];
            let ghost stack = self.buf@;
            proof {
                let batch = shorter@.subrange(i_s + k, i_s + lanes);
                assert(is_lower_bound(
                    longer@,
                    i_l as int,
                    longer@.len() as int,
                    shorter@[i_s + k],
                    idx as int,
                ));
                lemma_found_at_lower_bound(longer@, i_l as int, *key, idx as int);
                lemma_common_front(batch, longer@);
                assert(batch.drop_first() =~= shorter@.subrange(i_s + k + 1, i_s + lanes));
                assert(batch[0] == *key);
            }
            if idx < len_l && is_same(&longer[idx], key) {
                self.buf.push(key);
                proof {
                    assert(pending(self.buf@) =~= seq![*key] + pending(stack));
                }
            }
        }
        let last: usize = self.bases[lanes - 1];
        self.i_s = i_s + lanes;
        self.i_l = last;
        proof {
            let rest = shorter@.skip(i_s as int);
            lemma_common_split(rest, longer@, lanes as int);
            assert(rest.subrange(0, lanes as int) =~= shorter@.subrange(
                i_s as int,
                i_s + lanes,
            ));
            assert(rest.skip(lanes as int) =~= shorter@.skip(i_s + lanes));
            let top = shorter@[i_s + (lanes - 1)];
            assert(is_lower_bound(longer@, i_l as int, longer@.len() as int, top, last as int));
            assert forall|j: int, m: int|
                0 <= j < last && i_s + lanes <= m < shorter@.len() implies less(
                #[trigger] longer@[j],
                #[trigger] shorter@[m],
            ) by {
                assert(less(shorter@[i_s + (lanes - 1)], shorter@[m]));
                if j >= i_l {
                    assert(less(longer@[j], top));
                }
            }
        }
    }

    /// Searches the next single key in what is left of the longer sequence and
    /// moves both cursors, the longer one to the key's lower bound whether or
    /// not the key was found; returns the key if it was.
    fn tail_step(&mut self) -> (r: Option<&'a T>)
        requires
            old(self).wf(),
            old(self).buf@.len() == 0,
            old(self).i_s < old(self).shorter@.len(),
            old(self).i_l < old(self).longer@.len(),
        ensures
            final(self).wf(),
            final(self).buf@.len() == 0,
            final(self).lanes == old(self).lanes,
            final(self).shorter == old(self).shorter,
            final(self).longer == old(self).longer,
            final(self).i_s == old(self).i_s + 1,
            is_lower_bound(
                old(self).longer@,
                old(self).i_l as int,
                old(self).longer@.len() as int,
                old(self).shorter@[old(self).i_s as int],
                final(self).i_l as int,
            ),
            match r {
                Some(x) => old(self).remaining() == seq![*x] + final(self).remaining(),
                None => old(self).remaining() == final(self).remaining(),
            },
    {
        let shorter = self.shorter;
        let longer = self.longer;
        let i_s: usize = self.i_s;
        let i_l: usize = self.i_l;
        let len_l: usize = longer.len();
        let key = &shorter[i_s];
        let idx: usize = lower_bound(longer, i_l, len_l, key);
        proof {
            lemma_order_laws::<T>();
            let rest = shorter@.skip(i_s as int);
            assert(pending(self.buf@) =~= Seq::<T>::empty());
            assert(self.remaining() =~= common(rest, longer@));
            lemma_found_at_lower_bound(longer@, i_l as int, *key, idx as int);
            lemma_common_front(rest, longer@);
            assert(rest.drop_first() =~= shorter@.skip(i_s + 1));
            assert(rest[0] == *key);
            assert forall|j: int, m: int|
                0 <= j < idx && i_s + 1 <= m < shorter@.len() implies less(
                #[trigger] longer@[j],
                #[trigger] shorter@[m],
            ) by {
                assert(less(shorter@[i_s as int], shorter@[m]));
                if j >= i_l {
                    assert(less(longer@[j], *key));
                }
            }
        }
        self.i_s = i_s + 1;
        self.i_l = idx;
        proof {
            assert(self.remaining() =~= common(shorter@.skip(i_s + 1), longer@));
        }
        if idx < len_l && is_same(&longer[idx], key) {
            Some(key)
        } else {
            None
        }
    }

    /// Hands out the next common element, or `None` once there is none left;
    /// from then on every call returns `None`.
    pub fn next(&mut self) -> (r: Option<&'a T>)
        requires
            old(self).wf(),
        ensures
            final(self).wf(),
            final(self).width() == old(self).width(),
            final(self).shorter() == old(self).shorter(),
            final(self).longer() == old(self).longer(),
            final(self).cursor_shorter() >= old(self).cursor_shorter(),
            final(self).cursor_longer() >= old(self).cursor_longer(),
            final(self).cursor_shorter() <= final(self).shorter().len(),
            final(self).cursor_longer() <= final(self).longer().len(),
            r is None ==> final(self).phase_spec() == Phase::Exhausted,
            old(self).phase_spec() == Phase::Exhausted ==> r is None
                && final(self).cursor_shorter() == old(self).cursor_shorter()
                && final(self).cursor_longer() == old(self).cursor_longer(),
            old(self).phase_spec() == Phase::DrainingBuffer ==> r is Some
                && final(self).buffered() == old(self).buffered() - 1
                && final(self).cursor_shorter() == old(self).cursor_shorter()
                && final(self).cursor_longer() == old(self).cursor_longer(),
            match r {
                Some(x) => {
                    &&& old(self).remaining().len() > 0
                    &&& *x == old(self).remaining()[0]
                    &&& final(self).remaining() == old(self).remaining().drop_first()
                },
                None => {
                    &&& old(self).remaining().len() == 0
                    &&& final(self).remaining().len() == 0
                },
            },
    {
        if self.buf.len() > 0 {
            return self.pop_pending();
        }
        while self.lanes <= self.shorter.len() - self.i_s && self.i_l < self.longer.len()
            invariant
                self.wf(),
                self.buf@.len() == 0,
                self.remaining() == old(self).remaining(),
                self.lanes == old(self).lanes,
                self.shorter == old(self).shorter,
                self.longer == old(self).longer,
                self.i_s >= old(self).i_s,
                self.i_l >= old(self).i_l,
                old(self).buf@.len() == 0,
                old(self).phase_spec() == Phase::Exhausted ==> self.i_s == old(self).i_s
                    && self.i_l == old(self).i_l,
            decreases self.shorter@.len() - self.i_s,
        {
            self.run_batch();
            if self.buf.len() > 0 {
                return self.pop_pending();
            }
        }
        while self.i_s < self.shorter.len() && self.i_l < self.longer.len()
            invariant
                self.wf(),
                self.buf@.len() == 0,
                self.remaining() == old(self).remaining(),
                self.lanes == old(self).lanes,
                self.shorter == old(self).shorter,
                self.longer == old(self).longer,
                self.i_s >= old(self).i_s,
                self.i_l >= old(self).i_l,
                old(self).buf@.len() == 0,
                old(self).phase_spec() == Phase::Exhausted ==> self.i_s == old(self).i_s
                    && self.i_l == old(self).i_l,
            decreases self.shorter@.len() - self.i_s,
        {
            let found = self.tail_step();
            if found.is_some() {
                proof {
                    let x = found->0;
                    assert((seq![*x] + self.remaining()).drop_first() =~= self.remaining());
                }
                return found;
            }
        }
        proof {
            self.lemma_exhausted_is_empty();
        }
        None
    }

    /// Hands out everything that is left, in order.
    pub fn collect(&mut self) -> (out: Vec<&'a T>)
        requires
            old(self).wf(),
        ensures
            final(self).wf(),
            final(self).width() == old(self).width(),
            final(self).shorter() == old(self).shorter(),
            final(self).longer() == old(self).longer(),
            final(self).phase_spec() == Phase::Exhausted,
            values(out@) == old(self).remaining(),
            final(self).remaining().len() == 0,
    {
        let ghost all = self.remaining();
        let mut out: Vec<&'a T> = Vec::new();
        let mut done = false;
        proof {
            assert(values(out@) + self.remaining() =~= all);
        }
        while !done
            invariant
                self.wf(),
                self.width() == old(self).width(),
                self.shorter() == old(self).shorter(),
                self.longer() == old(self).longer(),
                values(out@) + self.remaining() == all,
                done ==> self.remaining().len() == 0 && self.phase_spec() == Phase::Exhausted,
            decreases
                    self.remaining().len() + if done {
                        0int
                    } else {
                        1int
                    },
        {
            let ghost left = self.remaining();
            let ghost got = out@;
            match self.next() {
                Some(x) => {
                    out.push(x);
                    proof {
                        assert(values(out@) =~= values(got).push(*x));
                        assert(values(out@) + self.remaining() =~= values(got) + left);
                    }
                },
                None => {
                    done = true;
                },
            }
        }
        proof {
            assert(values(out@) + self.remaining() =~= values(out@));
        }
        out
    }
}

/// A traversal of what `a` and `b` share, with batches of eight keys.
pub fn intersect<'a, T: Ord>(a: &'a [T], b: &'a [T]) -> (r: ShotgunIntersection<'a, T>)
    requires
        total_order::<T>(),
        ascending(a@),
        ascending(b@),
    ensures
        r.wf(),
        r.remaining() == common(shorter_of(a@, b@), longer_of(a@, b@)),
        r.width() == 8,
        r.buffered() == 0,
        r.shorter() == shorter_of(a@, b@),
        r.longer() == longer_of(a@, b@),
{
    ShotgunIntersection::new(a, b, BatchWidth::Eight)
}

/// A traversal of what `a` and `b` share, with batches of four keys.
pub fn shotgun_intersect4<'a, T: Ord>(a: &'a [T], b: &'a [T]) -> (r: ShotgunIntersection<'a, T>)
    requires
        total_order::<T>(),
        ascending(a@),
        ascending(b@),
    ensures
        r.wf(),
        r.remaining() == common(shorter_of(a@, b@), longer_of(a@, b@)),
        r.width() == 4,
        r.buffered() == 0,
        r.shorter() == shorter_of(a@, b@),
        r.longer() == longer_of(a@, b@),
{
    ShotgunIntersection::new(a, b, BatchWidth::Four)
}

/// A traversal of what `a` and `b` share, with batches of eight keys.
pub fn shotgun_intersect8<'a, T: Ord>(a: &'a [T], b: &'a [T]) -> (r: ShotgunIntersection<'a, T>)
    requires
        total_order::<T>(),
        ascending(a@),
        ascending(b@),
    ensures
        r.wf(),
        r.remaining() == common(shorter_of(a@, b@), longer_of(a@, b@)),
        r.width() == 8,
        r.buffered() == 0,
        r.shorter() == shorter_of(a@, b@),
        r.longer() == longer_of(a@, b@),
{
    ShotgunIntersection::new(a, b, BatchWidth::Eight)
}

/// A traversal of what `a` and `b` share, with batches of sixteen keys.
pub fn shotgun_intersect16<'a, T: Ord>(a: &'a [T], b: &'a [T]) -> (r: ShotgunIntersection<'a, T>)
    requires
        total_order::<T>(),
        ascending(a@),
        ascending(b@),
    ensures
        r.wf(),
        r.remaining() == common(shorter_of(a@, b@), longer_of(a@, b@)),
        r.width() == 16,
        r.buffered() == 0,
        r.shorter() == shorter_of(a@, b@),
        r.longer() == longer_of(a@, b@),
{
    ShotgunIntersection::new(a, b, BatchWidth::Sixteen)
}

/// A traversal of what `a` and `b` share, with batches of thirty-two keys.
pub fn shotgun_intersect32<'a, T: Ord>(a: &'a [T], b: &'a [T]) -> (r: ShotgunIntersection<'a, T>)
    requires
        total_order::<T>(),
        ascending(a@),
        ascending(b@),
    ensures
        r.wf(),
        r.remaining() == common(shorter_of(a@, b@), longer_of(a@, b@)),
        r.width() == 32,
        r.buffered() == 0,
        r.shorter() == shorter_of(a@, b@),
        r.longer() == longer_of(a@, b@),
{
    ShotgunIntersection::new(a, b, BatchWidth::ThirtyTwo)
}

} // verus!
