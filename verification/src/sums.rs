//! Sums of whole amounts.

use vstd::prelude::*;

verus! {

/// The sum of some amounts.
pub open spec fn sum(s: Seq<int>) -> int
    decreases s.len(),
{
    if s.len() == 0 {
        0
    } else {
        sum(s.drop_last()) + s.last()
    }
}

/// Taking out one amount lowers the sum by it.
pub proof fn lemma_sum_remove(s: Seq<int>, k: int)
    requires
        0 <= k < s.len(),
    ensures
        sum(s) == sum(s.remove(k)) + s[k],
    decreases s.len(),
{
    if k == s.len() - 1 {
        assert(s.remove(k) == s.drop_last());
    } else {
        lemma_sum_remove(s.drop_last(), k);
        assert(s.remove(k).drop_last() == s.drop_last().remove(k));
    }
}

/// The sum of amounts put together is the sum of their sums.
pub proof fn lemma_sum_add(a: Seq<int>, b: Seq<int>)
    ensures
        sum(a + b) == sum(a) + sum(b),
    decreases b.len(),
{
    if b.len() == 0 {
        assert(a + b == a);
    } else {
        lemma_sum_add(a, b.drop_last());
        assert((a + b).drop_last() == a + b.drop_last());
    }
}

/// A sum lies between that of as many lower and that of as many higher amounts.
pub proof fn lemma_sum_bounds(s: Seq<int>, low: int, high: int)
    requires
        forall|i: int| 0 <= i < s.len() ==> low <= #[trigger] s[i] <= high,
    ensures
        low * s.len() <= sum(s) <= high * s.len(),
    decreases s.len(),
{
    if s.len() > 0 {
        lemma_sum_bounds(s.drop_last(), low, high);
        let n = s.len() - 1;
        assert(low * (n + 1) == low * n + low && high * (n + 1) == high * n + high) by (nonlinear_arith);
    } else {
        assert(low * s.len() == 0 && high * s.len() == 0) by (nonlinear_arith)
            requires
                s.len() == 0,
        ;
    }
}

/// Sums of amounts that are each at most another are at most the other's sum.
pub proof fn lemma_sum_at_most(a: Seq<int>, b: Seq<int>)
    requires
        a.len() == b.len(),
        forall|i: int| 0 <= i < a.len() ==> #[trigger] a[i] <= b[i],
    ensures
        sum(a) <= sum(b),
    decreases a.len(),
{
    if a.len() > 0 {
        lemma_sum_at_most(a.drop_last(), b.drop_last());
    }
}

/// Amounts that sum to nothing and are never negative are each nothing.
pub proof fn lemma_sum_of_nothing(s: Seq<int>, k: int)
    requires
        forall|i: int| 0 <= i < s.len() ==> 0 <= #[trigger] s[i],
        sum(s) == 0,
        0 <= k < s.len(),
    ensures
        s[k] == 0,
{
    lemma_sum_remove(s, k);
    lemma_sum_nonnegative(s.remove(k));
}

/// Amounts that are never negative do not sum to less than nothing.
pub proof fn lemma_sum_nonnegative(s: Seq<int>)
    requires
        forall|i: int| 0 <= i < s.len() ==> 0 <= #[trigger] s[i],
    ensures
        0 <= sum(s),
    decreases s.len(),
{
    if s.len() > 0 {
        lemma_sum_nonnegative(s.drop_last());
    }
}

/// Putting in one amount raises the sum by it.
pub proof fn lemma_sum_insert(s: Seq<int>, k: int, x: int)
    requires
        0 <= k <= s.len(),
    ensures
        sum(s.insert(k, x)) == sum(s) + x,
{
    lemma_sum_remove(s.insert(k, x), k);
    assert(s.insert(k, x).remove(k) == s);
}

} // verus!
