//! Swaps as values: exchanging two positions of a sequence, and replaying a
//! list of such exchanges in order.
use vstd::prelude::*;
use vstd::seq_lib::*;

verus! {

/// `s` with the elements at `i` and `j` exchanged.
pub open spec fn swap_at<T>(s: Seq<T>, i: int, j: int) -> Seq<T> {
    s.update(i, s[j]).update(j, s[i])
}

/// Performs on `s` the exchanges of `t`, first to last.
pub open spec fn replay<T>(s: Seq<T>, t: Seq<(usize, usize)>) -> Seq<T>
    decreases t.len(),
{
    if t.len() == 0 {
        s
    } else {
        let e = t.last();
        swap_at(replay(s, t.drop_last()), e.0 as int, e.1 as int)
    }
}

/// Every exchange of `t` names two distinct positions in `lo..hi`.
pub open spec fn swaps_within(t: Seq<(usize, usize)>, lo: int, hi: int) -> bool {
    forall|k: int|
        0 <= k < t.len() ==> {
            let e = #[trigger] t[k];
            &&& lo <= e.0 < hi
            &&& lo <= e.1 < hi
            &&& e.0 != e.1
        }
}

/// Every exchange of `t` names its smaller position first.
pub open spec fn ordered_swaps(t: Seq<(usize, usize)>) -> bool {
    forall|k: int| 0 <= k < t.len() ==> (#[trigger] t[k]).0 < t[k].1
}

/// Two lists whose exchanges name the smaller position first make one such list.
pub proof fn lemma_ordered_concat(t1: Seq<(usize, usize)>, t2: Seq<(usize, usize)>)
    requires
        ordered_swaps(t1),
        ordered_swaps(t2),
    ensures
        ordered_swaps(t1 + t2),
{
    assert forall|k: int| 0 <= k < (t1 + t2).len() implies (#[trigger] (t1 + t2)[k]).0 < (t1 + t2)[k].1 by {
        if k < t1.len() {
            assert((t1 + t2)[k] == t1[k]);
        } else {
            assert((t1 + t2)[k] == t2[k - t1.len()]);
        }
    }
}

/// Relies on `<[T]>::swap`: exchanges the elements at `a` and `b`, and panics
/// when either is out of bounds.
pub assume_specification<V>[ <[V]>::swap ](slice: &mut [V], a: usize, b: usize)
    requires
        a < old(slice)@.len(),
        b < old(slice)@.len(),
    ensures
        final(slice)@ == swap_at(old(slice)@, a as int, b as int),
;

/// Replaying one more exchange performs it on what the earlier ones left.
pub proof fn lemma_replay_push<T>(s: Seq<T>, t: Seq<(usize, usize)>, e: (usize, usize))
    ensures
        replay(s, t.push(e)) == swap_at(replay(s, t), e.0 as int, e.1 as int),
{
    assert(t.push(e).drop_last() =~= t);
}

/// An exchange keeps the multiset of elements.
pub proof fn lemma_swap_multiset<T>(s: Seq<T>, i: int, j: int)
    requires
        0 <= i < s.len(),
        0 <= j < s.len(),
    ensures
        swap_at(s, i, j).len() == s.len(),
        swap_at(s, i, j).to_multiset() == s.to_multiset(),
{
    broadcast use to_multiset_update, to_multiset_contains;

    let s1 = s.update(i, s[j]);
    assert(s1[j] == s[j]);
    assert(s.contains(s[i]));
    assert(s1.to_multiset() == s.to_multiset().insert(s[j]).remove(s[i]));
    assert(swap_at(s, i, j).to_multiset() == s1.to_multiset().insert(s[i]).remove(s[j]));
    assert(swap_at(s, i, j).to_multiset() =~= s.to_multiset());
}

/// An exchange inside `lo..hi` keeps what lies outside, and the multiset of
/// what lies inside.
pub proof fn lemma_swap_within<T>(s: Seq<T>, i: int, j: int, lo: int, hi: int)
    requires
        0 <= lo <= i < hi <= s.len(),
        lo <= j < hi,
    ensures
        swap_at(s, i, j).len() == s.len(),
        forall|k: int| 0 <= k < lo || hi <= k < s.len() ==> swap_at(s, i, j)[k] == s[k],
        swap_at(s, i, j).subrange(lo, hi).to_multiset() == s.subrange(lo, hi).to_multiset(),
        swap_at(s, i, j).to_multiset() == s.to_multiset(),
{
    let r = s.subrange(lo, hi);
    assert(swap_at(s, i, j).subrange(lo, hi) =~= swap_at(r, i - lo, j - lo));
    lemma_swap_multiset(r, i - lo, j - lo);
    lemma_swap_multiset(s, i, j);
}

/// Exchanges inside `lo..hi` keep what lies outside, and the multiset of
/// what lies inside.
pub proof fn lemma_replay_within<T>(s: Seq<T>, t: Seq<(usize, usize)>, lo: int, hi: int)
    requires
        0 <= lo <= hi <= s.len(),
        swaps_within(t, lo, hi),
    ensures
        replay(s, t).len() == s.len(),
        forall|k: int| 0 <= k < lo || hi <= k < s.len() ==> #[trigger] replay(s, t)[k] == s[k],
        replay(s, t).subrange(lo, hi).to_multiset() == s.subrange(lo, hi).to_multiset(),
        replay(s, t).to_multiset() == s.to_multiset(),
    decreases t.len(),
{
    if t.len() > 0 {
        let p = t.drop_last();
        assert forall|k: int| 0 <= k < p.len() implies {
            let e = #[trigger] p[k];
            &&& lo <= e.0 < hi
            &&& lo <= e.1 < hi
            &&& e.0 != e.1
        } by {
            assert(p[k] == t[k]);
        }
        lemma_replay_within(s, p, lo, hi);
        let e = t.last();
        assert(t[t.len() - 1] == e);
        lemma_swap_within(replay(s, p), e.0 as int, e.1 as int, lo, hi);
    }
}

/// Replaying two lists one after the other is replaying their concatenation.
pub proof fn lemma_replay_concat<T>(s: Seq<T>, t1: Seq<(usize, usize)>, t2: Seq<(usize, usize)>)
    ensures
        replay(s, t1 + t2) == replay(replay(s, t1), t2),
    decreases t2.len(),
{
    if t2.len() > 0 {
        assert((t1 + t2).drop_last() =~= t1 + t2.drop_last());
        assert((t1 + t2).last() == t2.last());
        lemma_replay_concat(s, t1, t2.drop_last());
    } else {
        assert(t1 + t2 =~= t1);
    }
}

/// Two lists of exchanges inside `lo..hi`, one after the other, stay inside it.
pub proof fn lemma_swaps_within_concat(
    t1: Seq<(usize, usize)>,
    t2: Seq<(usize, usize)>,
    lo: int,
    hi: int,
    lo1: int,
    hi1: int,
    lo2: int,
    hi2: int,
)
    requires
        swaps_within(t1, lo1, hi1),
        swaps_within(t2, lo2, hi2),
        lo <= lo1,
        hi1 <= hi,
        lo <= lo2,
        hi2 <= hi,
    ensures
        swaps_within(t1 + t2, lo, hi),
{
    assert forall|k: int| 0 <= k < (t1 + t2).len() implies {
        let e = #[trigger] (t1 + t2)[k];
        &&& lo <= e.0 < hi
        &&& lo <= e.1 < hi
        &&& e.0 != e.1
    } by {
        if k < t1.len() {
            assert((t1 + t2)[k] == t1[k]);
        } else {
            assert((t1 + t2)[k] == t2[k - t1.len()]);
        }
    }
}

/// What holds of every element of `a` holds of every element of a
/// rearrangement `b` of it.
pub proof fn lemma_rearranged_all<T>(a: Seq<T>, b: Seq<T>, p: spec_fn(T) -> bool)
    requires
        a.to_multiset() == b.to_multiset(),
        forall|k: int| 0 <= k < a.len() ==> p(#[trigger] a[k]),
    ensures
        forall|k: int| 0 <= k < b.len() ==> p(#[trigger] b[k]),
{
    broadcast use to_multiset_contains;

    assert forall|k: int| 0 <= k < b.len() implies p(#[trigger] b[k]) by {
        assert(b.contains(b[k]));
        assert(a.to_multiset().count(b[k]) > 0);
        assert(a.contains(b[k]));
    }
}

} // verus!
