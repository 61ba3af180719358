//! What holds of every run of the sorts, whichever strategy made it.
use crate::order::{gt, lemma_neither_greater, lemma_total, sorted};
use crate::orst::{equal_swaps, never_stops, sort_run, verdict};
use crate::swaps::{lemma_replay_within, replay, swap_at, swaps_within};
use crate::Exit;
use vstd::laws_cmp::obeys_cmp;
use vstd::laws_eq::obeys_concrete_eq;
use vstd::prelude::*;
use vstd::seq_lib::*;

verus! {

/// Two sorted rearrangements of the same elements are equal, where equality
/// is identity.
pub proof fn lemma_sorted_rearrangement_unique<T: Ord>(a: Seq<T>, b: Seq<T>)
    requires
        obeys_cmp::<T>(),
        obeys_concrete_eq::<T>(),
        sorted(a),
        sorted(b),
        a.to_multiset() == b.to_multiset(),
    ensures
        a == b,
    decreases a.len(),
{
    to_multiset_len(a);
    to_multiset_len(b);
    if a.len() == 0 {
        assert(b.len() == 0);
        assert(a =~= b);
    } else {
        assert(b.len() == a.len());
        assert(a.contains(a[0]));
        to_multiset_contains(a, a[0]);
        to_multiset_contains(b, a[0]);
        assert(b.contains(a[0]));
        let j = choose|j: int| 0 <= j < b.len() && b[j] == a[0];
        assert(!gt(b[0], a[0])) by {
            if j > 0 {
                assert(!gt(b[0], b[j]));
            } else {
                lemma_total(b[0], b[0]);
            }
        }
        assert(b.contains(b[0]));
        to_multiset_contains(a, b[0]);
        to_multiset_contains(b, b[0]);
        assert(a.contains(b[0]));
        let i = choose|i: int| 0 <= i < a.len() && a[i] == b[0];
        assert(!gt(a[0], b[0])) by {
            if i > 0 {
                assert(!gt(a[0], a[i]));
            } else {
                lemma_total(a[0], a[0]);
            }
        }
        lemma_neither_greater(a[0], b[0]);
        to_multiset_remove(a, 0);
        to_multiset_remove(b, 0);
        assert(a.remove(0) =~= a.drop_first());
        assert(b.remove(0) =~= b.drop_first());
        lemma_sorted_rearrangement_unique(a.drop_first(), b.drop_first());
        assert forall|k: int| 0 <= k < a.len() implies a[k] == b[k] by {
            if k > 0 {
                assert(a[k] == a.drop_first()[k - 1]);
                assert(b[k] == b.drop_first()[k - 1]);
            }
        }
        assert(a =~= b);
    }
}

/// Replaying on a copy of the input the swaps that an observer which never
/// stops was told of gives the sorted result, a rearrangement of the input.
pub proof fn lemma_mirror_replays_sort<T: Ord, C: FnMut(usize, usize) -> Exit>(
    s0: Seq<T>,
    s1: Seq<T>,
    callback: C,
    t: Seq<(usize, usize)>,
    stopped: bool,
)
    requires
        sort_run(s0, s1, callback, t, stopped),
        never_stops(callback),
    ensures
        !stopped,
        replay(s0, t) == s1,
        sorted(replay(s0, t)),
        replay(s0, t).to_multiset() == s0.to_multiset(),
{
    if stopped {
        assert(call_ensures(callback, t[t.len() - 1], verdict(t.len() - 1, t.len() as int, true)));
    }
    lemma_replay_within(s0, t, 0, s0.len() as int);
}

/// Sorting a sequence that is already sorted, to the end, leaves it as it
/// was, where equality is identity.
pub proof fn lemma_sorted_input_unchanged<T: Ord, C: FnMut(usize, usize) -> Exit>(
    s0: Seq<T>,
    s1: Seq<T>,
    callback: C,
    t: Seq<(usize, usize)>,
)
    requires
        obeys_cmp::<T>(),
        obeys_concrete_eq::<T>(),
        sorted(s0),
        sort_run(s0, s1, callback, t, false),
    ensures
        s1 == s0,
{
    lemma_replay_within(s0, t, 0, s0.len() as int);
    lemma_sorted_rearrangement_unique(s1, s0);
}

/// A run that the observer stopped made exactly as many swaps as the
/// observer was told of: the last one was answered `Yes` and every one
/// before it `No`. The sequence is still a rearrangement of the input.
pub proof fn lemma_stopped_run<T: Ord, C: FnMut(usize, usize) -> Exit>(
    s0: Seq<T>,
    s1: Seq<T>,
    callback: C,
    t: Seq<(usize, usize)>,
)
    requires
        sort_run(s0, s1, callback, t, true),
    ensures
        t.len() >= 1,
        replay(s0, t) == s1,
        call_ensures(callback, t[t.len() - 1], Exit::Yes),
        forall|k: int| 0 <= k < t.len() - 1 ==> call_ensures(callback, #[trigger] t[k], Exit::No),
        s1.to_multiset() == s0.to_multiset(),
{
    assert(call_ensures(callback, t[t.len() - 1], verdict(t.len() - 1, t.len() as int, true)));
    assert forall|k: int| 0 <= k < t.len() - 1 implies call_ensures(callback, #[trigger] t[k], Exit::No) by {
        assert(call_ensures(callback, t[k], verdict(k, t.len() as int, true)));
    }
    lemma_replay_within(s0, t, 0, s0.len() as int);
}

/// A sequence of length 0 or 1 is sorted with no swap at all, and the
/// observer never asked to stop.
pub proof fn lemma_short_input_no_swaps<T: Ord, C: FnMut(usize, usize) -> Exit>(
    s0: Seq<T>,
    s1: Seq<T>,
    callback: C,
    t: Seq<(usize, usize)>,
    stopped: bool,
)
    requires
        s0.len() <= 1,
        sort_run(s0, s1, callback, t, stopped),
    ensures
        t.len() == 0,
        !stopped,
        s1 == s0,
{
    if t.len() > 0 {
        let e = t[0];
        assert(e.0 < s0.len() && e.1 < s0.len() && e.0 != e.1);
    }
}

/// Swaps that only ever exchange equal elements leave the sequence as it
/// was, where equality is identity, however early the run was stopped.
pub proof fn lemma_equal_swaps_unchanged<T: Ord>(s0: Seq<T>, t: Seq<(usize, usize)>)
    requires
        obeys_cmp::<T>(),
        obeys_concrete_eq::<T>(),
        swaps_within(t, 0, s0.len() as int),
        equal_swaps(s0, t),
    ensures
        replay(s0, t) == s0,
    decreases t.len(),
{
    if t.len() > 0 {
        let p = t.drop_last();
        assert forall|k: int| 0 <= k < p.len() implies {
            let e = #[trigger] p[k];
            &&& 0 <= e.0 < s0.len()
            &&& 0 <= e.1 < s0.len()
            &&& e.0 != e.1
        } by {
            assert(p[k] == t[k]);
        }
        assert forall|k: int| 0 <= k < p.len() implies {
            let e = #[trigger] p[k];
            let w = replay(s0, p.take(k));
            &&& !gt(w[e.0 as int], w[e.1 as int])
            &&& !gt(w[e.1 as int], w[e.0 as int])
        } by {
            assert(p[k] == t[k]);
            assert(p.take(k) =~= t.take(k));
        }
        lemma_equal_swaps_unchanged(s0, p);
        let e = t.last();
        assert(t[t.len() - 1] == e);
        assert(t.take(t.len() - 1) =~= p);
        lemma_neither_greater(s0[e.0 as int], s0[e.1 as int]);
        assert(swap_at(s0, e.0 as int, e.1 as int) =~= s0);
    }
}

} // verus!
