//! Counting the pairs of a sequence that stand out of order.
use crate::order::{gt, lemma_total, sorted};
use crate::orst::adjacent_descents;
use crate::swaps::{lemma_replay_push, replay, swap_at};
use vstd::laws_cmp::obeys_cmp;
use vstd::prelude::*;

verus! {

/// How many of the positions `lo..hi` of `s` hold an element that `x` is
/// greater than.
pub open spec fn count_below<T: PartialOrd>(s: Seq<T>, x: T, lo: int, hi: int) -> nat
    decreases hi - lo,
{
    if lo >= hi {
        0
    } else {
        (if gt(x, s[lo]) { 1nat } else { 0nat }) + count_below(s, x, lo + 1, hi)
    }
}

/// How many pairs `i < j`, with `i` at or after `from`, have `s[i]` greater
/// than `s[j]`.
pub open spec fn inversions_from<T: PartialOrd>(s: Seq<T>, from: int) -> nat
    decreases s.len() - from,
{
    if from >= s.len() || from < 0 {
        0
    } else {
        count_below(s, s[from], from + 1, s.len() as int) + inversions_from(s, from + 1)
    }
}

/// The number of pairs of `s` that stand out of order.
pub open spec fn inversions<T: PartialOrd>(s: Seq<T>) -> nat {
    inversions_from(s, 0)
}

/// Counts over positions where two sequences agree are equal.
proof fn lemma_count_agree<T: PartialOrd>(s: Seq<T>, u: Seq<T>, x: T, lo: int, hi: int)
    requires
        0 <= lo,
        hi <= s.len(),
        hi <= u.len(),
        forall|k: int| lo <= k < hi ==> s[k] == u[k],
    ensures
        count_below(s, x, lo, hi) == count_below(u, x, lo, hi),
    decreases hi - lo,
{
    if lo < hi {
        lemma_count_agree(s, u, x, lo + 1, hi);
    }
}

/// Inversion counts from a position on, where two sequences agree from there.
proof fn lemma_inversions_agree<T: PartialOrd>(s: Seq<T>, u: Seq<T>, from: int)
    requires
        0 <= from,
        s.len() == u.len(),
        forall|k: int| from <= k < s.len() ==> s[k] == u[k],
    ensures
        inversions_from(s, from) == inversions_from(u, from),
    decreases s.len() - from,
{
    if from < s.len() {
        lemma_count_agree(s, u, s[from], from + 1, s.len() as int);
        lemma_inversions_agree(s, u, from + 1);
    }
}

/// Exchanging two neighbours inside a range keeps the count over the range.
proof fn lemma_count_swap<T: PartialOrd>(s: Seq<T>, x: T, a: int, lo: int, hi: int)
    requires
        0 <= lo <= a,
        a + 1 < hi <= s.len(),
    ensures
        count_below(swap_at(s, a, a + 1), x, lo, hi) == count_below(s, x, lo, hi),
    decreases a - lo,
{
    let w = swap_at(s, a, a + 1);
    if lo < a {
        lemma_count_swap(s, x, a, lo + 1, hi);
    } else {
        lemma_count_agree(s, w, x, a + 2, hi);
        assert(count_below(w, x, a, hi) == (if gt(x, w[a]) { 1nat } else { 0nat }) + count_below(w, x, a + 1, hi));
        assert(count_below(s, x, a, hi) == (if gt(x, s[a]) { 1nat } else { 0nat }) + count_below(s, x, a + 1, hi));
    }
}

/// Exchanging two neighbours that stand out of order removes exactly one
/// inversion.
pub proof fn lemma_inversions_swap<T: Ord>(s: Seq<T>, a: int)
    requires
        obeys_cmp::<T>(),
        0 <= a,
        a + 1 < s.len(),
        gt(s[a], s[a + 1]),
    ensures
        inversions(swap_at(s, a, a + 1)) + 1 == inversions(s),
{
    lemma_inversions_swap_from(s, a, 0);
}

proof fn lemma_inversions_swap_from<T: Ord>(s: Seq<T>, a: int, from: int)
    requires
        obeys_cmp::<T>(),
        0 <= from <= a,
        a + 1 < s.len(),
        gt(s[a], s[a + 1]),
    ensures
        inversions_from(swap_at(s, a, a + 1), from) + 1 == inversions_from(s, from),
    decreases a - from,
{
    let w = swap_at(s, a, a + 1);
    let n = s.len() as int;
    if from < a {
        lemma_inversions_swap_from(s, a, from + 1);
        lemma_count_swap(s, s[from], a, from + 1, n);
        assert(w[from] == s[from]);
    } else {
        lemma_total(s[a], s[a + 1]);
        lemma_inversions_agree(s, w, a + 2);
        lemma_count_agree(s, w, s[a + 1], a + 2, n);
        lemma_count_agree(s, w, s[a], a + 2, n);
        assert(inversions_from(w, a + 1) == count_below(w, s[a], a + 2, n) + inversions_from(w, a + 2));
        assert(inversions_from(s, a + 1) == count_below(s, s[a + 1], a + 2, n) + inversions_from(s, a + 2));
        assert(count_below(w, s[a + 1], a + 1, n) == count_below(w, s[a + 1], a + 2, n));
        assert(count_below(s, s[a], a + 1, n) == 1 + count_below(s, s[a], a + 2, n));
    }
}

/// A sorted sequence has no inversion.
pub proof fn lemma_sorted_no_inversions<T: PartialOrd>(s: Seq<T>)
    requires
        sorted(s),
    ensures
        inversions(s) == 0,
{
    lemma_sorted_no_inversions_from(s, 0);
}

proof fn lemma_sorted_no_inversions_from<T: PartialOrd>(s: Seq<T>, from: int)
    requires
        sorted(s),
        0 <= from,
    ensures
        inversions_from(s, from) == 0,
    decreases s.len() - from,
{
    if from < s.len() {
        lemma_sorted_no_inversions_from(s, from + 1);
        lemma_sorted_count_zero(s, from, from + 1);
    }
}

proof fn lemma_sorted_count_zero<T: PartialOrd>(s: Seq<T>, i: int, lo: int)
    requires
        sorted(s),
        0 <= i < lo,
    ensures
        count_below(s, s[i], lo, s.len() as int) == 0,
    decreases s.len() - lo,
{
    if lo < s.len() {
        lemma_sorted_count_zero(s, i, lo + 1);
        assert(!gt(s[i], s[lo]));
    }
}

/// Each swap of neighbours out of order removes one inversion: such a list of
/// swaps is exactly as long as the inversions that it removed.
pub proof fn lemma_descents_count<T: Ord>(s0: Seq<T>, t: Seq<(usize, usize)>)
    requires
        obeys_cmp::<T>(),
        adjacent_descents(s0, t),
        forall|k: int| 0 <= k < t.len() ==> (#[trigger] t[k]).1 < s0.len(),
    ensures
        t.len() + inversions(replay(s0, t)) == inversions(s0),
    decreases t.len(),
{
    if t.len() > 0 {
        let p = t.drop_last();
        assert forall|k: int| 0 <= k < p.len() implies {
            let e = #[trigger] p[k];
            let w = replay(s0, p.take(k));
            &&& e.1 == e.0 + 1
            &&& gt(w[e.0 as int], w[e.1 as int])
        } by {
            assert(p[k] == t[k]);
            assert(p.take(k) =~= t.take(k));
        }
        assert forall|k: int| 0 <= k < p.len() implies (#[trigger] p[k]).1 < s0.len() by {
            assert(p[k] == t[k]);
        }
        assert forall|k: int| 0 <= k < p.len() implies (#[trigger] p[k]).0 < s0.len() && p[k].1 < s0.len() by {
            assert(p[k] == t[k]);
            assert(t[k].1 == t[k].0 + 1);
        }
        lemma_descents_count(s0, p);
        let e = t.last();
        assert(t[t.len() - 1] == e);
        assert(t.take(t.len() - 1) =~= p);
        lemma_replay_len(s0, p);
        lemma_replay_push(s0, p, e);
        assert(p.push(e) =~= t);
        lemma_inversions_swap(replay(s0, p), e.0 as int);
    }
}

/// Replaying exchanges keeps the length.
proof fn lemma_replay_len<T>(s: Seq<T>, t: Seq<(usize, usize)>)
    requires
        forall|k: int| 0 <= k < t.len() ==> (#[trigger] t[k]).0 < s.len() && t[k].1 < s.len(),
    ensures
        replay(s, t).len() == s.len(),
    decreases t.len(),
{
    if t.len() > 0 {
        let p = t.drop_last();
        assert forall|k: int| 0 <= k < p.len() implies (#[trigger] p[k]).0 < s.len() && p[k].1 < s.len() by {
            assert(p[k] == t[k]);
        }
        lemma_replay_len(s, p);
        assert(t[t.len() - 1] == t.last());
    }
}

} // verus!
