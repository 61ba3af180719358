//! Three sorting strategies behind one operation, each reporting every swap
//! to an observer and stopping as soon as the observer asks.
use crate::order::{
    gt, lt, lemma_adjacent_sorted, lemma_gt_trans, lemma_not_gt_trans, lemma_total, sorted, sorted_between,
};
use crate::swaps::{
    lemma_rearranged_all, lemma_replay_concat, lemma_replay_push, lemma_replay_within,
    lemma_ordered_concat, lemma_swaps_within_concat, ordered_swaps, replay, swap_at, swaps_within,
};
use crate::inversions::{inversions, lemma_descents_count, lemma_sorted_no_inversions};
use crate::Exit;
use vstd::laws_cmp::obeys_cmp;
use vstd::prelude::*;
use vstd::std_specs::cmp::PartialOrdSpec;

verus! {

/// The observer may be called with any two distinct positions below `n`.
pub open spec fn accepts_swaps<C: FnMut(usize, usize) -> Exit>(callback: C, n: nat) -> bool {
    forall|e: (usize, usize)|
        e.0 < n && e.1 < n && e.0 != e.1 ==> #[trigger] call_requires(callback, e)
}

/// The observer never asks to stop.
pub open spec fn never_stops<C: FnMut(usize, usize) -> Exit>(callback: C) -> bool {
    forall|e: (usize, usize), r: Exit| #[trigger] call_ensures(callback, e, r) ==> r == Exit::No
}

/// The answer that the observer gave to the `k`-th of `n` swaps of a run:
/// `Yes` only for the last one of a run that was stopped.
pub open spec fn verdict(k: int, n: int, stopped: bool) -> Exit {
    if stopped && k == n - 1 {
        Exit::Yes
    } else {
        Exit::No
    }
}

/// The observer was told of the swaps `t` in order and may have answered as
/// `verdict` says: a stopped run ends with the one swap that was answered `Yes`.
/// This speaks of the list of swaps only: Verus keeps no record of the calls
/// that a closure received, so it does not by itself rule out a call that has
/// no swap behind it.
pub open spec fn heard<C: FnMut(usize, usize) -> Exit>(
    callback: C,
    t: Seq<(usize, usize)>,
    stopped: bool,
) -> bool {
    &&& stopped ==> t.len() > 0
    &&& forall|k: int|
        0 <= k < t.len() ==> call_ensures(callback, #[trigger] t[k], verdict(k, t.len() as int, stopped))
}

/// A run that took `s0` to `s1`: the swaps `t` name distinct positions of the
/// sequence, replaying them on `s0` gives `s1`, the observer heard each of
/// them, and a run that was not stopped left `s1` sorted.
pub open spec fn sort_run<T: PartialOrd, C: FnMut(usize, usize) -> Exit>(
    s0: Seq<T>,
    s1: Seq<T>,
    callback: C,
    t: Seq<(usize, usize)>,
    stopped: bool,
) -> bool {
    &&& swaps_within(t, 0, s0.len() as int)
    &&& replay(s0, t) == s1
    &&& heard(callback, t, stopped)
    &&& !stopped ==> sorted(s1)
}

/// One more swap `e`, which the observer answered with `r`, extends a run
/// that had not been stopped.
pub proof fn lemma_heard_push<C: FnMut(usize, usize) -> Exit>(
    callback: C,
    t: Seq<(usize, usize)>,
    e: (usize, usize),
    r: Exit,
)
    requires
        heard(callback, t, false),
        call_ensures(callback, e, r),
    ensures
        heard(callback, t.push(e), r == Exit::Yes),
{
    let t2 = t.push(e);
    assert forall|k: int| 0 <= k < t2.len() implies call_ensures(
        callback,
        #[trigger] t2[k],
        verdict(k, t2.len() as int, r == Exit::Yes),
    ) by {
        if k < t.len() {
            assert(t2[k] == t[k]);
            assert(call_ensures(callback, t[k], verdict(k, t.len() as int, false)));
        }
    }
}

/// Two runs one after the other, the first not stopped, make one run that
/// stops when the second does.
pub proof fn lemma_heard_concat<C: FnMut(usize, usize) -> Exit>(
    callback: C,
    t1: Seq<(usize, usize)>,
    t2: Seq<(usize, usize)>,
    stopped: bool,
)
    requires
        heard(callback, t1, false),
        heard(callback, t2, stopped),
    ensures
        heard(callback, t1 + t2, stopped),
{
    let t = t1 + t2;
    assert forall|k: int| 0 <= k < t.len() implies call_ensures(
        callback,
        #[trigger] t[k],
        verdict(k, t.len() as int, stopped),
    ) by {
        if k < t1.len() {
            assert(t[k] == t1[k]);
            assert(call_ensures(callback, t1[k], verdict(k, t1.len() as int, false)));
        } else {
            assert(t[k] == t2[k - t1.len()]);
            assert(call_ensures(callback, t2[k - t1.len()], verdict(k - t1.len(), t2.len() as int, stopped)));
        }
    }
}

/// Every swap of `t` exchanges two neighbours `(a, a + 1)`, of which the
/// left one was strictly greater just before the swap.
pub open spec fn adjacent_descents<T: PartialOrd>(s0: Seq<T>, t: Seq<(usize, usize)>) -> bool {
    forall|k: int|
        0 <= k < t.len() ==> {
            let e = #[trigger] t[k];
            let w = replay(s0, t.take(k));
            &&& e.1 == e.0 + 1
            &&& gt(w[e.0 as int], w[e.1 as int])
        }
}

/// One more swap of two neighbours out of order extends a list of such swaps.
pub proof fn lemma_descents_push<T: PartialOrd>(s0: Seq<T>, t: Seq<(usize, usize)>, e: (usize, usize))
    requires
        adjacent_descents(s0, t),
        e.1 == e.0 + 1,
        gt(replay(s0, t)[e.0 as int], replay(s0, t)[e.1 as int]),
    ensures
        adjacent_descents(s0, t.push(e)),
{
    let t2 = t.push(e);
    assert forall|k: int| 0 <= k < t2.len() implies {
        let e2 = #[trigger] t2[k];
        let w = replay(s0, t2.take(k));
        &&& e2.1 == e2.0 + 1
        &&& gt(w[e2.0 as int], w[e2.1 as int])
    } by {
        if k < t.len() {
            assert(t2.take(k) =~= t.take(k));
            assert(t2[k] == t[k]);
        } else {
            assert(t2.take(k) =~= t);
        }
    }
}

/// Every swap of `t` exchanges two elements neither of which is greater than
/// the other, as they stood just before the swap.
pub open spec fn equal_swaps<T: PartialOrd>(s0: Seq<T>, t: Seq<(usize, usize)>) -> bool {
    forall|k: int|
        0 <= k < t.len() ==> {
            let e = #[trigger] t[k];
            let w = replay(s0, t.take(k));
            &&& !gt(w[e.0 as int], w[e.1 as int])
            &&& !gt(w[e.1 as int], w[e.0 as int])
        }
}

/// Swaps of equal elements, one list after the other, make one such list.
pub proof fn lemma_equal_concat<T: PartialOrd>(s0: Seq<T>, t1: Seq<(usize, usize)>, t2: Seq<(usize, usize)>)
    requires
        equal_swaps(s0, t1),
        equal_swaps(replay(s0, t1), t2),
    ensures
        equal_swaps(s0, t1 + t2),
{
    let t = t1 + t2;
    assert forall|k: int| 0 <= k < t.len() implies {
        let e = #[trigger] t[k];
        let w = replay(s0, t.take(k));
        &&& !gt(w[e.0 as int], w[e.1 as int])
        &&& !gt(w[e.1 as int], w[e.0 as int])
    } by {
        if k < t1.len() {
            assert(t.take(k) =~= t1.take(k));
            assert(t[k] == t1[k]);
        } else {
            let j = k - t1.len();
            assert(t.take(k) =~= t1 + t2.take(j));
            lemma_replay_concat(s0, t1, t2.take(j));
            assert(t[k] == t2[j]);
        }
    }
}

/// Swapping two equal elements inside a sorted part keeps it sorted.
pub proof fn lemma_swap_equal_sorted<T: Ord>(s: Seq<T>, i: int, j: int, lo: int, hi: int)
    requires
        obeys_cmp::<T>(),
        0 <= lo <= i < hi <= s.len(),
        lo <= j < hi,
        !gt(s[i], s[j]),
        !gt(s[j], s[i]),
        sorted_between(s, lo, hi),
    ensures
        sorted_between(swap_at(s, i, j), lo, hi),
{
    let w = swap_at(s, i, j);
    assert forall|a: int, b: int| lo <= a < b < hi implies !gt(#[trigger] w[a], #[trigger] w[b]) by {
        lemma_total(s[a], s[b]);
        if (a == i || a == j) && !(b == i || b == j) {
            // w[a] is the other of the equal pair
            if gt(w[a], w[b]) {
                if w[a] == s[j] {
                    if a == i {
                        lemma_not_gt_trans(s[j], s[i], s[b]);
                    }
                } else {
                    if a == j {
                        lemma_not_gt_trans(s[i], s[j], s[b]);
                    }
                }
            }
        } else if (b == i || b == j) && !(a == i || a == j) {
            if gt(w[a], w[b]) {
                if b == i {
                    lemma_not_gt_trans(s[a], s[i], s[j]);
                } else {
                    lemma_not_gt_trans(s[a], s[j], s[i]);
                }
            }
        }
    }
}

/// Swaps of equal elements inside a sorted part keep it sorted.
pub proof fn lemma_replay_equal_sorted<T: Ord>(s: Seq<T>, t: Seq<(usize, usize)>, lo: int, hi: int)
    requires
        obeys_cmp::<T>(),
        0 <= lo <= hi <= s.len(),
        sorted_between(s, lo, hi),
        swaps_within(t, lo, hi),
        equal_swaps(s, t),
    ensures
        sorted_between(replay(s, t), lo, hi),
    decreases t.len(),
{
    if t.len() > 0 {
        let p = t.drop_last();
        assert forall|k: int| 0 <= k < p.len() implies {
            let e = #[trigger] p[k];
            &&& lo <= e.0 < hi
            &&& lo <= e.1 < hi
            &&& e.0 != e.1
        } by {
            assert(p[k] == t[k]);
        }
        assert forall|k: int| 0 <= k < p.len() implies {
            let e = #[trigger] p[k];
            let w = replay(s, p.take(k));
            &&& !gt(w[e.0 as int], w[e.1 as int])
            &&& !gt(w[e.1 as int], w[e.0 as int])
        } by {
            assert(p[k] == t[k]);
            assert(p.take(k) =~= t.take(k));
        }
        lemma_replay_equal_sorted(s, p, lo, hi);
        lemma_replay_within(s, p, lo, hi);
        let e = t.last();
        assert(t[t.len() - 1] == e);
        assert(t.take(t.len() - 1) =~= p);
        lemma_swap_equal_sorted(replay(s, p), e.0 as int, e.1 as int, lo, hi);
    }
}

/// Sorting in place with an observer of swaps.
pub trait Orster {
    /// Sorts `slice` in non-decreasing order, calling `callback` with the two
    /// positions of each swap just after it is made. When `callback` returns
    /// `Exit::Yes`, the sort returns at once, with no further swap.
    ///
    /// The contract speaks of the list of swaps that were made and answered
    /// (see `sort_run`); it cannot speak of the closure's calls themselves.
    fn orst<T, C>(&self, slice: &mut [T], callback: C)
        where
            T: Ord,
            C: FnMut(usize, usize) -> Exit,
        requires
            obeys_cmp::<T>(),
            accepts_swaps(callback, old(slice)@.len()),
        ensures
            final(slice)@.to_multiset() == old(slice)@.to_multiset(),
            never_stops(callback) ==> sorted(final(slice)@),
            exists|t: Seq<(usize, usize)>, stopped: bool|
                #[trigger] sort_run(old(slice)@, final(slice)@, callback, t, stopped),
    ;
}

/// Repeated passes over adjacent pairs until a pass swaps nothing.
pub struct BubbleOrst;

/// Every position before `n - p` holds an element that is not greater than
/// any at or after `n - p`, and those last `p` are in order.
spec fn settled<T: PartialOrd>(s: Seq<T>, p: int) -> bool {
    forall|i: int, j: int| 0 <= i < j < s.len() && j >= s.len() - p ==> !gt(#[trigger] s[i], #[trigger] s[j])
}

impl Orster for BubbleOrst {
    fn orst<T, C>(&self, slice: &mut [T], mut callback: C)
        where
            T: Ord,
            C: FnMut(usize, usize) -> Exit,
        ensures
            sorted(old(slice)@) ==> final(slice)@ == old(slice)@ && sort_run(
                old(slice)@,
                final(slice)@,
                callback,
                Seq::empty(),
                false,
            ),
            exists|t: Seq<(usize, usize)>, stopped: bool|
                #[trigger] sort_run(old(slice)@, final(slice)@, callback, t, stopped)
                    && adjacent_descents(old(slice)@, t)
                    && t.len() + inversions(final(slice)@) == inversions(old(slice)@)
                    && (never_stops(callback) ==> t.len() == inversions(old(slice)@)),
    {
        let n = slice.len();
        let ghost s0 = slice@;
        let ghost cb = callback;
        let ghost mut t: Seq<(usize, usize)> = Seq::empty();
        let ghost mut passes: int = 0;
        let mut swapped = true;
        #[verifier::loop_isolation(false)]
        while swapped
            invariant
                obeys_cmp::<T>(),
                n == slice@.len(),
                s0 == old(slice)@,
                s0.len() == n,
                callback == cb,
                accepts_swaps(cb, n as nat),
                swaps_within(t, 0, n as int),
                replay(s0, t) == slice@,
                heard(cb, t, false),
                adjacent_descents(s0, t),
                0 <= passes,
                settled(slice@, passes),
                swapped ==> passes <= n,
                !swapped ==> sorted(slice@),
                sorted(s0) ==> slice@ == s0 && t.len() == 0,
            decreases (if swapped { n + 1 - passes } else { 0 }),
        {
            let ghost start = slice@;
            swapped = false;
            let mut i: usize = 0;
            #[verifier::loop_isolation(false)]
            while i + 1 < n
                invariant
                    obeys_cmp::<T>(),
                    n == slice@.len(),
                    s0 == old(slice)@,
                    s0.len() == n,
                    callback == cb,
                    accepts_swaps(cb, n as nat),
                    swaps_within(t, 0, n as int),
                    replay(s0, t) == slice@,
                    heard(cb, t, false),
                    adjacent_descents(s0, t),
                    0 <= passes,
                    settled(slice@, passes),
                    i < n || i == 0,
                    forall|k: int| 0 <= k < i ==> !gt(#[trigger] slice@[k], slice@[i as int]),
                    i >= n - 1 - passes ==> forall|k: int| 0 <= k < n - 1 - passes ==> !gt(#[trigger] slice@[k], slice@[n - 1 - passes]),
                    !swapped ==> forall|k: int| 0 <= k < i ==> !gt(#[trigger] slice@[k], slice@[k + 1]),
                    sorted(start) ==> !swapped && slice@ == start,
                    sorted(s0) ==> slice@ == s0 && t.len() == 0,
                decreases n - i,
            {
                proof {
                    lemma_total(slice@[i as int], slice@[i + 1]);
                }
                if slice[i] > slice[i + 1] {
                    let ghost before = slice@;
                    slice.swap(i, i + 1);
                    let verdict = callback(i, i + 1);
                    proof {
                        lemma_descents_push(s0, t, (i, (i + 1) as usize));
                        lemma_heard_push(cb, t, (i, (i + 1) as usize), verdict);
                        lemma_replay_push(s0, t, (i, (i + 1) as usize));
                        t = t.push((i, (i + 1) as usize));
                        assert(slice@[i as int] == before[i + 1]);
                        assert(slice@[i + 1] == before[i as int]);
                        assert forall|k: int| 0 <= k < i + 1 implies !gt(#[trigger] slice@[k], slice@[i + 1]) by {
                            if k == i {
                                assert(!gt(before[i + 1], before[i as int]));
                            } else {
                                assert(slice@[k] == before[k]);
                            }
                        }
                    }
                    if matches!(verdict, Exit::Yes) {
                        proof {
                            lemma_replay_within(s0, t, 0, n as int);
                            lemma_descents_count(s0, t);
                            assert(!never_stops(cb)) by {
                                assert(call_ensures(cb, t[t.len() - 1], Exit::Yes));
                            }
                            assert(sort_run(s0, slice@, cb, t, true) && adjacent_descents(s0, t));
                        }
                        return;
                    }
                    swapped = true;
                } else {
                    assert forall|k: int| 0 <= k < i + 1 implies !gt(#[trigger] slice@[k], slice@[i + 1]) by {
                        if k < i {
                            lemma_not_gt_trans(slice@[k], slice@[i as int], slice@[i + 1]);
                        }
                    }
                }
                i += 1;
            }
            proof {
                passes = passes + 1;
                if !swapped {
                    lemma_adjacent_sorted(slice@);
                }
            }
        }
        proof {
            lemma_replay_within(s0, t, 0, n as int);
            lemma_descents_count(s0, t);
            lemma_sorted_no_inversions(slice@);
            assert(sort_run(s0, slice@, cb, t, false) && adjacent_descents(s0, t));
        }
    }
}

/// Each element in turn walks left past the greater ones before it.
pub struct InsertionOrst;

impl Orster for InsertionOrst {
    fn orst<T, C>(&self, slice: &mut [T], mut callback: C)
        where
            T: Ord,
            C: FnMut(usize, usize) -> Exit,
        ensures
            sorted(old(slice)@) ==> final(slice)@ == old(slice)@ && sort_run(
                old(slice)@,
                final(slice)@,
                callback,
                Seq::empty(),
                false,
            ),
            exists|t: Seq<(usize, usize)>, stopped: bool|
                #[trigger] sort_run(old(slice)@, final(slice)@, callback, t, stopped)
                    && adjacent_descents(old(slice)@, t)
                    && t.len() + inversions(final(slice)@) == inversions(old(slice)@)
                    && (never_stops(callback) ==> t.len() == inversions(old(slice)@)),
    {
        let n = slice.len();
        let ghost s0 = slice@;
        let ghost cb = callback;
        let ghost mut t: Seq<(usize, usize)> = Seq::empty();
        let mut unsorted: usize = 1;
        #[verifier::loop_isolation(false)]
        while unsorted < n
            invariant
                1 <= unsorted,
                unsorted <= n || n == 0,
                n == slice@.len(),
                callback == cb,
                swaps_within(t, 0, n as int),
                replay(s0, t) == slice@,
                heard(cb, t, false),
                adjacent_descents(s0, t),
                forall|a: int, b: int| 0 <= a < b < unsorted ==> !gt(#[trigger] slice@[a], #[trigger] slice@[b]),
                sorted(s0) ==> slice@ == s0 && t.len() == 0,
            decreases n - unsorted,
        {
            let mut i = unsorted;
            proof {
                lemma_total(slice@[0], slice@[0]);
            }
            #[verifier::loop_isolation(false)]
            while i > 0 && slice[i - 1] > slice[i]
                invariant
                    T::obeys_partial_cmp_spec(),
                    0 <= i <= unsorted < n,
                    n == slice@.len(),
                    callback == cb,
                    swaps_within(t, 0, n as int),
                    replay(s0, t) == slice@,
                    heard(cb, t, false),
                    adjacent_descents(s0, t),
                    forall|a: int, b: int|
                        0 <= a < b <= unsorted && a != i && b != i ==> !gt(#[trigger] slice@[a], #[trigger] slice@[b]),
                    forall|m: int| i < m <= unsorted ==> !gt(slice@[i as int], #[trigger] slice@[m]),
                    sorted(s0) ==> slice@ == s0 && i == unsorted && t.len() == 0,
                decreases i,
            {
                let ghost before = slice@;
                proof {
                    lemma_total(before[i - 1], before[i as int]);
                }
                slice.swap(i - 1, i);
                let verdict = callback(i - 1, i);
                proof {
                    lemma_descents_push(s0, t, ((i - 1) as usize, i));
                    lemma_heard_push(cb, t, ((i - 1) as usize, i), verdict);
                    lemma_replay_push(s0, t, ((i - 1) as usize, i));
                    t = t.push(((i - 1) as usize, i));
                }
                if matches!(verdict, Exit::Yes) {
                    proof {
                        lemma_replay_within(s0, t, 0, n as int);
                        lemma_descents_count(s0, t);
                            assert(!never_stops(cb)) by {
                                assert(call_ensures(cb, t[t.len() - 1], Exit::Yes));
                            }
                            assert(sort_run(s0, slice@, cb, t, true) && adjacent_descents(s0, t));
                    }
                    return;
                }
                i -= 1;
                proof {
                    assert forall|a: int, b: int|
                        0 <= a < b <= unsorted && a != i && b != i implies !gt(#[trigger] slice@[a], #[trigger] slice@[b]) by {
                        if a == i + 1 {
                            assert(!gt(before[i as int], before[b]));
                        } else if b == i + 1 {
                            assert(!gt(before[a], before[i as int]));
                        } else {
                            assert(!gt(before[a], before[b]));
                        }
                    }
                    assert forall|m: int| i < m <= unsorted implies !gt(slice@[i as int], #[trigger] slice@[m]) by {
                        if m > i + 1 {
                            assert(!gt(before[i + 1], before[m]));
                        }
                    }
                }
            }
            proof {
                assert forall|a: int, b: int| 0 <= a < b < unsorted + 1 implies !gt(#[trigger] slice@[a], #[trigger] slice@[b]) by {
                    if b == i && a < i - 1 {
                        lemma_not_gt_trans(slice@[a], slice@[i - 1], slice@[i as int]);
                    }
                }
            }
            unsorted += 1;
        }
        proof {
            lemma_replay_within(s0, t, 0, n as int);
            lemma_descents_count(s0, t);
            lemma_sorted_no_inversions(slice@);
            assert(sort_run(s0, slice@, cb, t, false) && adjacent_descents(s0, t));
        }
    }
}

/// Partition-exchange around the first element as pivot, then each side in
/// turn.
pub struct QuickOrst;

impl Orster for QuickOrst {
    fn orst<T, C>(&self, slice: &mut [T], mut callback: C)
        where
            T: Ord,
            C: FnMut(usize, usize) -> Exit,
        ensures
            exists|t: Seq<(usize, usize)>, stopped: bool|
                #[trigger] sort_run(old(slice)@, final(slice)@, callback, t, stopped) && ordered_swaps(t)
                    && (sorted(old(slice)@) ==> equal_swaps(old(slice)@, t)),
            sorted(old(slice)@) ==> sorted(final(slice)@),
    {
        let ghost s0 = slice@;
        let ghost cb = callback;
        let n = slice.len();
        let (exit, t) = quicksort(slice, 0, n, &mut callback);
        proof {
            lemma_replay_within(s0, t@, 0, n as int);
            if sorted(s0) {
                assert(sorted_between(s0, 0, n as int));
                lemma_replay_equal_sorted(s0, t@, 0, n as int);
                assert(sorted(slice@));
            }
            assert(sort_run(s0, slice@, cb, t@, exit == Exit::Yes) && ordered_swaps(t@) && (sorted(s0)
                ==> equal_swaps(s0, t@)));
            if exit == Exit::Yes {
                assert(call_ensures(cb, t@[t@.len() - 1], Exit::Yes));
            }
        }
    }
}

/// Sorts `slice[offset..offset + len]`, reporting each swap at its position
/// in the whole of `slice`, and returns whether the observer asked to stop,
/// with the swaps that were made. Nothing outside that part moves.
fn quicksort<T, C>(slice: &mut [T], offset: usize, len: usize, callback: &mut C) -> (r: (
    Exit,
    Ghost<Seq<(usize, usize)>>,
))
    where
        T: Ord,
        C: FnMut(usize, usize) -> Exit,
    requires
        obeys_cmp::<T>(),
        offset + len <= old(slice)@.len(),
        accepts_swaps(*old(callback), old(slice)@.len()),
    ensures
        *final(callback) == *old(callback),
        swaps_within(r.1@, offset as int, offset + len),
        ordered_swaps(r.1@),
        len <= 1 ==> r.0 == Exit::No && r.1@.len() == 0,
        len == 2 && lt(old(slice)@[offset as int], old(slice)@[offset + 1]) ==> r.0 == Exit::No
            && r.1@.len() == 0,
        len == 2 && !lt(old(slice)@[offset as int], old(slice)@[offset + 1]) ==> r.1@ == seq![
            (offset, (offset + 1) as usize),
        ],
        replay(old(slice)@, r.1@) == final(slice)@,
        heard(*old(callback), r.1@, r.0 == Exit::Yes),
        r.0 == Exit::No ==> sorted_between(final(slice)@, offset as int, offset + len),
        sorted_between(old(slice)@, offset as int, offset + len) ==> equal_swaps(old(slice)@, r.1@),
    decreases len,
{
    let ghost s0 = slice@;
    let ghost cb = *callback;
    let ghost mut t: Seq<(usize, usize)> = Seq::empty();
    // every position computed below is bounded by the slice length
    let total = slice.len();
    match len {
        0 | 1 => {
            return (Exit::No, Ghost(t));
        },
        2 => {
            proof {
                lemma_total(slice@[offset as int], slice@[offset + 1]);
            }
            if !(slice[offset] < slice[offset + 1]) {
                slice.swap(offset, offset + 1);
                let verdict = callback(offset, offset + 1);
                proof {
                    lemma_heard_push(cb, t, (offset, (offset + 1) as usize), verdict);
                    lemma_replay_push(s0, t, (offset, (offset + 1) as usize));
                    t = t.push((offset, (offset + 1) as usize));
                    assert(t =~= seq![(offset, (offset + 1) as usize)]);
                    assert(t.take(0) =~= Seq::<(usize, usize)>::empty());
                    if sorted_between(s0, offset as int, offset + len) {
                        assert(!gt(s0[offset as int], s0[offset + 1]));
                    }
                }
                if matches!(verdict, Exit::Yes) {
                    return (Exit::Yes, Ghost(t));
                }
            }
            return (Exit::No, Ghost(t));
        },
        _ => {},
    }
    // the pivot stays at `offset` while the rest, from `offset + 1`, is
    // partitioned; `left` and `right` count from there
    let ghost pivot = slice@[offset as int];
    proof {
        lemma_total(pivot, pivot);
    }
    let mut left: usize = 0;
    let mut right: usize = len - 2;
    while left <= right
        invariant
            obeys_cmp::<T>(),
            T::obeys_partial_cmp_spec(),
            3 <= len,
            offset + len <= s0.len(),
            s0.len() == total,
            s0 == old(slice)@,
            cb == *old(callback),
            accepts_swaps(cb, s0.len()),
            left <= right + 1,
            right + 1 <= len - 1,
            slice@.len() == s0.len(),
            *callback == cb,
            slice@[offset as int] == pivot,
            swaps_within(t, offset + 1, offset + len),
            ordered_swaps(t),
            replay(s0, t) == slice@,
            heard(cb, t, false),
            forall|k: int| 0 <= k < left ==> !gt(#[trigger] slice@[offset + 1 + k], pivot),
            forall|k: int| right < k < len - 1 ==> gt(#[trigger] slice@[offset + 1 + k], pivot),
            sorted_between(s0, offset as int, offset + len) ==> t.len() == 0,
        ensures
            left <= len - 1,
            s0 == old(slice)@,
            cb == *old(callback),
            slice@.len() == s0.len(),
            *callback == cb,
            slice@[offset as int] == pivot,
            swaps_within(t, offset + 1, offset + len),
            ordered_swaps(t),
            replay(s0, t) == slice@,
            heard(cb, t, false),
            forall|k: int| 0 <= k < left ==> !gt(#[trigger] slice@[offset + 1 + k], pivot),
            forall|k: int| left <= k < len - 1 ==> gt(#[trigger] slice@[offset + 1 + k], pivot),
            sorted_between(s0, offset as int, offset + len) ==> t.len() == 0,
        decreases right + 1 - left,
    {
        proof {
            lemma_total(slice@[offset + 1 + left], pivot);
            lemma_total(slice@[offset + 1 + right], pivot);
        }
        if slice[offset + 1 + left] <= slice[offset] {
            // already on the correct side
            left += 1;
        } else if slice[offset + 1 + right] > slice[offset] {
            if right == 0 {
                break;
            }
            right -= 1;
        } else {
            // move the element to the right side
            proof {
                assert(left < right);
                if sorted_between(s0, offset as int, offset + len) {
                    assert(slice@ == s0);
                    assert(!gt(slice@[offset + 1 + left], slice@[offset + 1 + right]));
                    lemma_not_gt_trans(slice@[offset + 1 + left], slice@[offset + 1 + right], pivot);
                }
            }
            slice.swap(offset + 1 + left, offset + 1 + right);
            let verdict = callback(offset + 1 + left, offset + 1 + right);
            let ghost e = ((offset + 1 + left) as usize, (offset + 1 + right) as usize);
            proof {
                assert(left < right);
                lemma_heard_push(cb, t, e, verdict);
                lemma_replay_push(s0, t, e);
                t = t.push(e);
            }
            if matches!(verdict, Exit::Yes) {
                return (Exit::Yes, Ghost(t));
            }
            left += 1;
            if right == 0 {
                break;
            }
            right -= 1;
        }
    }
    // place the pivot at its final position
    let ghost before = slice@;
    if left != 0 {
        slice.swap(offset, offset + left);
        let verdict = callback(offset, offset + left);
        let ghost e = (offset, (offset + left) as usize);
        proof {
            lemma_heard_push(cb, t, e, verdict);
            lemma_replay_push(s0, t, e);
            if sorted_between(s0, offset as int, offset + len) {
                assert(before == s0);
                assert(t.push(e) =~= seq![e]);
                assert(seq![e].take(0) =~= Seq::<(usize, usize)>::empty());
                assert(!gt(before[offset + 1 + (left - 1)], pivot));
                assert(!gt(pivot, before[offset + left]));
                lemma_swap_equal_sorted(s0, offset as int, offset + left, offset as int, offset + len);
            }
            t = t.push(e);
        }
        if matches!(verdict, Exit::Yes) {
            return (Exit::Yes, Ghost(t));
        }
    }
    let ghost s1 = slice@;
    let mid = offset + left;
    proof {
        assert forall|k: int| offset <= k < mid implies !gt(#[trigger] s1[k], pivot) by {
            if k == offset {
                assert(s1[k] == before[offset + 1 + (left - 1)]);
            } else {
                assert(s1[k] == before[offset + 1 + (k - offset - 1)]);
            }
        }
        assert forall|k: int| mid < k < offset + len implies gt(#[trigger] s1[k], pivot) by {
            assert(s1[k] == before[offset + 1 + (k - offset - 1)]);
        }
        assert(s1[mid as int] == pivot);
        assert forall|k: int| 0 <= k < t.len() implies {
            let e = #[trigger] t[k];
            &&& offset <= e.0 < offset + len
            &&& offset <= e.1 < offset + len
            &&& e.0 != e.1
        } by {}
    }
    let (exit, t1) = quicksort(slice, offset, left, callback);
    proof {
        lemma_replay_concat(s0, t, t1@);
        lemma_heard_concat(cb, t, t1@, exit == Exit::Yes);
        lemma_ordered_concat(t, t1@);
        lemma_swaps_within_concat(t, t1@, offset as int, offset + len, offset as int, offset + len, offset as int, mid as int);
        if sorted_between(s0, offset as int, offset + len) {
            assert(sorted_between(s1, offset as int, offset + len));
            lemma_equal_concat(s0, t, t1@);
        }
        t = t + t1@;
    }
    if matches!(exit, Exit::Yes) {
        return (Exit::Yes, Ghost(t));
    }
    let ghost s2 = slice@;
    proof {
        lemma_replay_within(s1, t1@, offset as int, mid as int);
        lemma_rearranged_all(s1.subrange(offset as int, mid as int), s2.subrange(offset as int, mid as int), |x: T| !gt(x, pivot));
        assert forall|k: int| offset <= k < mid implies !gt(#[trigger] s2[k], pivot) by {
            assert(s2.subrange(offset as int, mid as int)[k - offset] == s2[k]);
        }
        if sorted_between(s0, offset as int, offset + len) {
            assert(sorted_between(s1, offset as int, offset + len));
            assert(sorted_between(s2, mid + 1, offset + len));
        }
    }
    let (exit, t2) = quicksort(slice, mid + 1, len - left - 1, callback);
    proof {
        lemma_replay_concat(s0, t, t2@);
        lemma_heard_concat(cb, t, t2@, exit == Exit::Yes);
        lemma_ordered_concat(t, t2@);
        lemma_swaps_within_concat(t, t2@, offset as int, offset + len, offset as int, offset + len, mid + 1, offset + len);
        if sorted_between(s0, offset as int, offset + len) {
            lemma_equal_concat(s0, t, t2@);
        }
        t = t + t2@;
    }
    if matches!(exit, Exit::Yes) {
        return (Exit::Yes, Ghost(t));
    }
    proof {
        let s3 = slice@;
        lemma_replay_within(s2, t2@, mid + 1, offset + len);
        assert(s2.subrange(mid + 1, offset + len) =~= s1.subrange(mid + 1, offset + len));
        lemma_rearranged_all(s1.subrange(mid + 1, offset + len), s3.subrange(mid + 1, offset + len), |x: T| gt(x, pivot));
        assert forall|k: int| mid < k < offset + len implies gt(#[trigger] s3[k], pivot) by {
            assert(s3.subrange(mid + 1, offset + len)[k - mid - 1] == s3[k]);
        }
        assert forall|i: int, j: int| offset <= i < j < offset + len implies !gt(#[trigger] s3[i], #[trigger] s3[j]) by {
            lemma_total(s3[i], s3[j]);
            lemma_total(s3[j], pivot);
            if i < mid && j > mid {
                if gt(s3[i], s3[j]) {
                    lemma_gt_trans(s3[i], s3[j], pivot);
                }
            }
        }
    }
    (Exit::No, Ghost(t))
}

} // verus!
