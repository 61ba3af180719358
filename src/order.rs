//! The ordering that the sorts rely on, stated over `PartialOrd`'s spec.
use core::cmp::Ordering;
use vstd::laws_cmp::*;
use vstd::laws_eq::*;
use vstd::prelude::*;
use vstd::std_specs::cmp::{OrdSpec, PartialOrdSpec};

verus! {

/// `a` is strictly greater than `b`.
pub open spec fn gt<T: PartialOrd>(a: T, b: T) -> bool {
    a.partial_cmp_spec(&b) == Some(Ordering::Greater)
}

/// `a` is strictly less than `b`.
pub open spec fn lt<T: PartialOrd>(a: T, b: T) -> bool {
    a.partial_cmp_spec(&b) == Some(Ordering::Less)
}

/// Non-decreasing: no element is greater than one that stands after it.
pub open spec fn sorted<T: PartialOrd>(s: Seq<T>) -> bool {
    forall|i: int, j: int| 0 <= i < j < s.len() ==> !gt(#[trigger] s[i], #[trigger] s[j])
}

/// The part `lo..hi` of `s` is non-decreasing.
pub open spec fn sorted_between<T: PartialOrd>(s: Seq<T>, lo: int, hi: int) -> bool {
    forall|i: int, j: int| lo <= i < j < hi ==> !gt(#[trigger] s[i], #[trigger] s[j])
}

/// Facts of a lawful total order on a pair of values.
pub proof fn lemma_total<T: Ord>(a: T, b: T)
    requires
        obeys_cmp::<T>(),
    ensures
        a.partial_cmp_spec(&b) is Some,
        T::obeys_partial_cmp_spec(),
        gt(a, b) <==> lt(b, a),
        gt(a, b) ==> !gt(b, a),
        lt(a, b) ==> !gt(a, b),
        !lt(a, b) ==> !gt(b, a),
        !gt(a, a),
{
    reveal(obeys_cmp_partial_ord);
    reveal(obeys_cmp_ord);
    reveal(obeys_partial_cmp_spec_properties);
    reveal(obeys_eq_spec_properties);
    assert(a.partial_cmp_spec(&b) == Some(a.cmp_spec(&b)));
    assert(b.partial_cmp_spec(&a) == Some(b.cmp_spec(&a)));
    assert(a.partial_cmp_spec(&a) == Some(a.cmp_spec(&a)));
}

/// "Not greater" is transitive.
pub proof fn lemma_not_gt_trans<T: Ord>(a: T, b: T, c: T)
    requires
        obeys_cmp::<T>(),
        !gt(a, b),
        !gt(b, c),
    ensures
        !gt(a, c),
{
    reveal(obeys_cmp_partial_ord);
    reveal(obeys_cmp_ord);
    reveal(obeys_partial_cmp_spec_properties);
    reveal(obeys_eq_spec_properties);
    assert(a.partial_cmp_spec(&b) == Some(a.cmp_spec(&b)));
    assert(b.partial_cmp_spec(&c) == Some(b.cmp_spec(&c)));
    assert(a.partial_cmp_spec(&c) == Some(a.cmp_spec(&c)));
    assert(c.partial_cmp_spec(&a) == Some(c.cmp_spec(&a)));
    assert(b.partial_cmp_spec(&a) == Some(b.cmp_spec(&a)));
    assert(c.partial_cmp_spec(&b) == Some(c.cmp_spec(&b)));
}

/// "Greater" is transitive.
pub proof fn lemma_gt_trans<T: Ord>(a: T, b: T, c: T)
    requires
        obeys_cmp::<T>(),
        gt(a, b),
        gt(b, c),
    ensures
        gt(a, c),
{
    reveal(obeys_partial_cmp_spec_properties);
}

/// In a sequence whose adjacent pairs are in order, an element is not
/// greater than any that stands after it.
pub proof fn lemma_adjacent_chain<T: Ord>(s: Seq<T>, i: int, j: int)
    requires
        obeys_cmp::<T>(),
        forall|k: int| 0 <= k < s.len() - 1 ==> !gt(#[trigger] s[k], s[k + 1]),
        0 <= i < j < s.len(),
    ensures
        !gt(s[i], s[j]),
    decreases j - i,
{
    if j > i + 1 {
        lemma_adjacent_chain(s, i, j - 1);
        lemma_not_gt_trans(s[i], s[j - 1], s[j]);
    }
}

/// A sequence whose adjacent pairs are in order is sorted.
pub proof fn lemma_adjacent_sorted<T: Ord>(s: Seq<T>)
    requires
        obeys_cmp::<T>(),
        forall|k: int| 0 <= k < s.len() - 1 ==> !gt(#[trigger] s[k], s[k + 1]),
    ensures
        sorted(s),
{
    assert forall|i: int, j: int| 0 <= i < j < s.len() implies !gt(#[trigger] s[i], #[trigger] s[j]) by {
        lemma_adjacent_chain(s, i, j);
    }
}

/// Where equality is identity, two values neither of which is greater than
/// the other are the same value.
pub proof fn lemma_neither_greater<T: Ord>(a: T, b: T)
    requires
        obeys_cmp::<T>(),
        obeys_concrete_eq::<T>(),
        !gt(a, b),
        !gt(b, a),
    ensures
        a == b,
{
    lemma_total(a, b);
    reveal(obeys_partial_cmp_spec_properties);
    reveal(obeys_concrete_eq);
    assert(a.partial_cmp_spec(&b) == Some(Ordering::Equal));
}

} // verus!
