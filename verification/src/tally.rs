//! Summation over sequences: the measure both engines use for their
//! bookkeeping — the pathfinder to show its main loop terminates, the maze
//! generator to count visited cells and carved passages.

use vstd::prelude::*;

verus! {

/// The sum of `f` over every element of `s`.
pub open spec fn sum_map<A>(s: Seq<A>, f: spec_fn(A) -> int) -> int
    decreases s.len(),
{
    if s.len() == 0 {
        0
    } else {
        sum_map(s.drop_last(), f) + f(s.last())
    }
}

/// If `f` is nonnegative on every element, so is the sum.
pub proof fn lemma_sum_map_nonneg<A>(s: Seq<A>, f: spec_fn(A) -> int)
    requires
        forall|k: int| 0 <= k < s.len() ==> f(#[trigger] s[k]) >= 0,
    ensures
        sum_map(s, f) >= 0,
    decreases s.len(),
{
    if s.len() > 0 {
        lemma_sum_map_nonneg(s.drop_last(), f);
    }
}

/// If `f` vanishes on every element, the sum is zero.
pub proof fn lemma_sum_map_zero<A>(s: Seq<A>, f: spec_fn(A) -> int)
    requires
        forall|k: int| 0 <= k < s.len() ==> f(#[trigger] s[k]) == 0,
    ensures
        sum_map(s, f) == 0,
    decreases s.len(),
{
    if s.len() > 0 {
        lemma_sum_map_zero(s.drop_last(), f);
    }
}

/// Replacing one element changes the sum by exactly the difference at that
/// element.
pub proof fn lemma_sum_map_update<A>(s: Seq<A>, i: int, v: A, f: spec_fn(A) -> int)
    requires
        0 <= i < s.len(),
    ensures
        sum_map(s.update(i, v), f) == sum_map(s, f) - f(s[i]) + f(v),
    decreases s.len(),
{
    let t = s.update(i, v);
    if i == s.len() - 1 {
        assert(t.drop_last() =~= s.drop_last());
        assert(t.last() == v);
    } else {
        assert(t.drop_last() =~= s.drop_last().update(i, v));
        assert(t.last() == s.last());
        lemma_sum_map_update(s.drop_last(), i, v, f);
    }
}

/// If `f` never exceeds 1, the sum never exceeds the length.
pub proof fn lemma_sum_map_at_most_len<A>(s: Seq<A>, f: spec_fn(A) -> int)
    requires
        forall|k: int| 0 <= k < s.len() ==> f(#[trigger] s[k]) <= 1,
    ensures
        sum_map(s, f) <= s.len(),
    decreases s.len(),
{
    if s.len() > 0 {
        lemma_sum_map_at_most_len(s.drop_last(), f);
    }
}

/// If `f` is 0-or-1 valued and the sum reaches the length, `f` is 1 on
/// every element.
pub proof fn lemma_sum_map_saturated<A>(s: Seq<A>, f: spec_fn(A) -> int)
    requires
        forall|k: int| 0 <= k < s.len() ==> 0 <= f(#[trigger] s[k]) <= 1,
        sum_map(s, f) == s.len(),
    ensures
        forall|k: int| 0 <= k < s.len() ==> f(#[trigger] s[k]) == 1,
    decreases s.len(),
{
    if s.len() > 0 {
        let d = s.drop_last();
        lemma_sum_map_at_most_len(d, f);
        assert(forall|k: int| 0 <= k < d.len() ==> d[k] == #[trigger] s[k]);
        assert(f(s.last()) == 1);
        lemma_sum_map_saturated(d, f);
        assert(forall|k: int| 0 <= k < s.len() - 1 ==> f(#[trigger] s[k]) == f(d[k]));
    }
}

} // verus!
