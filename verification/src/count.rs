//! Counting how many elements of a sequence satisfy a predicate, with the
//! lemmas the running counts of chunks and light grids rest on.

use vstd::prelude::*;

verus! {

/// 1 if `p` holds of `x`, else 0.
pub open spec fn count_one<T>(p: spec_fn(T) -> bool, x: T) -> int {
    if p(x) {
        1
    } else {
        0
    }
}

/// How many elements of `s` satisfy `p`.
pub open spec fn count_if<T>(s: Seq<T>, p: spec_fn(T) -> bool) -> int
    decreases s.len(),
{
    if s.len() == 0 {
        0
    } else {
        count_if(s.drop_last(), p) + count_one(p, s.last())
    }
}

/// A count lies between zero and the sequence's length.
pub proof fn lemma_count_bounds<T>(s: Seq<T>, p: spec_fn(T) -> bool)
    ensures
        0 <= count_if(s, p) <= s.len(),
    decreases s.len(),
{
    if s.len() > 0 {
        lemma_count_bounds(s.drop_last(), p);
    }
}

/// Updating one element changes the count by the difference of the old and
/// new element's contributions.
pub proof fn lemma_count_update<T>(s: Seq<T>, p: spec_fn(T) -> bool, i: int, v: T)
    requires
        0 <= i < s.len(),
    ensures
        count_if(s.update(i, v), p) == count_if(s, p) - count_one(p, s[i]) + count_one(p, v),
    decreases s.len(),
{
    let t = s.update(i, v);
    if i == s.len() - 1 {
        assert(t.drop_last() =~= s.drop_last());
    } else {
        assert(t.drop_last() =~= s.drop_last().update(i, v));
        lemma_count_update(s.drop_last(), p, i, v);
    }
}

/// One element's contribution never exceeds the whole count.
pub proof fn lemma_count_member<T>(s: Seq<T>, p: spec_fn(T) -> bool, i: int)
    requires
        0 <= i < s.len(),
    ensures
        count_if(s, p) >= count_one(p, s[i]),
    decreases s.len(),
{
    if i == s.len() - 1 {
        lemma_count_bounds(s.drop_last(), p);
    } else {
        lemma_count_member(s.drop_last(), p, i);
    }
}

/// The count is zero exactly when no element satisfies the predicate.
pub proof fn lemma_count_zero<T>(s: Seq<T>, p: spec_fn(T) -> bool)
    ensures
        count_if(s, p) == 0 <==> (forall|i: int| 0 <= i < s.len() ==> !p(#[trigger] s[i])),
    decreases s.len(),
{
    if s.len() > 0 {
        lemma_count_zero(s.drop_last(), p);
        lemma_count_bounds(s.drop_last(), p);
        assert(forall|i: int|
            0 <= i < s.len() - 1 ==> #[trigger] s[i] == s.drop_last()[i]);
    }
}

/// When every element satisfies the predicate, the count is the length.
pub proof fn lemma_count_all<T>(s: Seq<T>, p: spec_fn(T) -> bool)
    requires
        forall|i: int| 0 <= i < s.len() ==> p(#[trigger] s[i]),
    ensures
        count_if(s, p) == s.len(),
    decreases s.len(),
{
    if s.len() > 0 {
        assert(forall|i: int|
            0 <= i < s.len() - 1 ==> #[trigger] s.drop_last()[i] == s[i]);
        lemma_count_all(s.drop_last(), p);
    }
}

} // verus!
