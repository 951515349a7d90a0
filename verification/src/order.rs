//! Stable ordering by whole-number keys.

use crate::sums::{lemma_sum_insert, sum};
use vstd::prelude::*;

verus! {

/// Where an item goes among those already in order: behind all whose key is not greater.
pub open spec fn slot(order: Seq<int>, keys: Seq<int>, key: int) -> int
    decreases order.len(),
{
    if order.len() == 0 || keys[order.last()] <= key {
        order.len() as int
    } else {
        slot(order.drop_last(), keys, key)
    }
}

/// The positions of the keys in ascending order of the keys, equal keys as they stand.
pub open spec fn ranking(keys: Seq<int>) -> Seq<int>
    decreases keys.len(),
{
    if keys.len() == 0 {
        Seq::empty()
    } else {
        let rest = ranking(keys.drop_last());
        rest.insert(slot(rest, keys, keys.last()), keys.len() - 1)
    }
}

/// Items in the order of their keys.
pub open spec fn arranged<T>(items: Seq<T>, keys: Seq<int>) -> Seq<T> {
    Seq::new(keys.len(), |i: int| items[ranking(keys)[i]])
}

pub open spec fn wide(keys: Seq<i128>) -> Seq<int> {
    Seq::new(keys.len(), |i: int| keys[i] as int)
}

proof fn lemma_slot(order: Seq<int>, keys: Seq<int>, key: int)
    ensures
        0 <= slot(order, keys, key) <= order.len(),
        forall|i: int| slot(order, keys, key) <= i < order.len() ==> key < keys[#[trigger] order[i]],
        slot(order, keys, key) > 0 ==> keys[order[slot(order, keys, key) - 1]] <= key,
    decreases order.len(),
{
    if order.len() > 0 && keys[order.last()] > key {
        lemma_slot(order.drop_last(), keys, key);
        let s = slot(order, keys, key);
        assert forall|i: int| s <= i < order.len() implies key < keys[#[trigger] order[i]] by {
            if i < order.len() - 1 {
                assert(order.drop_last()[i] == order[i]);
            }
        }
    }
}

/// One position stands before another: its key is less, or the same and it is the earlier one.
pub open spec fn stands_before(keys: Seq<int>, a: int, b: int) -> bool {
    keys[a] < keys[b] || keys[a] == keys[b] && a < b
}

/// A ranking names every position once, in ascending order of the keys, equal keys
/// as they stand.
pub proof fn lemma_ranking(keys: Seq<int>)
    ensures
        ranking(keys).len() == keys.len(),
        forall|i: int| 0 <= i < keys.len() ==> 0 <= #[trigger] ranking(keys)[i] < keys.len(),
        forall|k: int| 0 <= k < keys.len() ==> #[trigger] ranking(keys).contains(k),
        forall|i: int, j: int|
            0 <= i < j < keys.len() ==> stands_before(keys, #[trigger] ranking(keys)[i], #[trigger] ranking(keys)[j]),
    decreases keys.len(),
{
    if keys.len() > 0 {
        let n = keys.len() - 1;
        let shorter = keys.drop_last();
        let rest = ranking(shorter);
        lemma_ranking(shorter);
        let key = keys.last();
        lemma_slot(rest, keys, key);
        let s = slot(rest, keys, key);
        let all = ranking(keys);
        assert(all == rest.insert(s, n));
        assert forall|i: int| 0 <= i < keys.len() implies 0 <= #[trigger] all[i] < keys.len() by {
            if i < s {
                assert(all[i] == rest[i]);
            } else if i > s {
                assert(all[i] == rest[i - 1]);
            }
        }
        assert forall|k: int| 0 <= k < keys.len() implies #[trigger] all.contains(k) by {
            if k == n {
                assert(all[s] == n);
            } else {
                assert(rest.contains(k));
                let i = choose|i: int| 0 <= i < rest.len() && rest[i] == k;
                assert(all[if i < s { i } else { i + 1 }] == k);
            }
        }
        assert forall|i: int, j: int| 0 <= i < j < keys.len() implies stands_before(
            keys,
            #[trigger] all[i],
            #[trigger] all[j],
        ) by {
            if i != s && j != s {
                let a = if i < s { i } else { i - 1 };
                let b = if j < s { j } else { j - 1 };
                assert(stands_before(shorter, rest[a], rest[b]));
            } else if j == s {
                assert(rest[i] == all[i]);
                if i < s - 1 {
                    assert(stands_before(shorter, rest[i], rest[s - 1]));
                }
            } else {
                assert(rest[j - 1] == all[j]);
            }
        }
    }
}

/// The last item takes its place among the others, which keep theirs.
pub(crate) proof fn lemma_arranged_inserts<T>(items: Seq<T>, keys: Seq<int>)
    requires
        items.len() == keys.len(),
        keys.len() > 0,
    ensures
        ({
            let rest = ranking(keys.drop_last());
            let at = slot(rest, keys, keys.last());
            &&& 0 <= at <= arranged(items.drop_last(), keys.drop_last()).len()
            &&& arranged(items, keys) == arranged(items.drop_last(), keys.drop_last()).insert(at, items.last())
        }),
{
    let rest = ranking(keys.drop_last());
    let at = slot(rest, keys, keys.last());
    lemma_slot(rest, keys, keys.last());
    lemma_ranking(keys.drop_last());
    let before = arranged(items.drop_last(), keys.drop_last());
    assert forall|i: int| 0 <= i < keys.len() implies arranged(items, keys)[i] == before.insert(at, items.last())[i] by {
        if i < at {
            assert(ranking(keys)[i] == rest[i]);
        } else if i > at {
            assert(ranking(keys)[i] == rest[i - 1]);
        }
    }
    assert(arranged(items, keys) == before.insert(at, items.last()));
}

/// Arranging drops nothing and adds nothing.
pub proof fn lemma_arranged_keeps_all<T>(items: Seq<T>, keys: Seq<int>)
    requires
        items.len() == keys.len(),
    ensures
        arranged(items, keys).to_multiset() == items.to_multiset(),
    decreases keys.len(),
{
    broadcast use vstd::seq_lib::group_to_multiset_ensures;

    if keys.len() > 0 {
        lemma_arranged_inserts(items, keys);
        lemma_arranged_keeps_all(items.drop_last(), keys.drop_last());
        let at = slot(ranking(keys.drop_last()), keys, keys.last());
        let before = arranged(items.drop_last(), keys.drop_last());
        assert(items == items.drop_last().push(items.last()));
        assert(before.insert(at, items.last()).to_multiset() == before.to_multiset().insert(items.last()));
    } else {
        assert(arranged(items, keys) == items);
    }
}

/// Numbers arranged by themselves ascend.
pub proof fn lemma_arranged_ascends(keys: Seq<int>)
    ensures
        forall|i: int, j: int|
            0 <= i <= j < keys.len() ==> #[trigger] arranged(keys, keys)[i] <= #[trigger] arranged(keys, keys)[j],
{
    lemma_ranking(keys);
    let s = arranged(keys, keys);
    assert forall|i: int, j: int| 0 <= i <= j < keys.len() implies #[trigger] s[i] <= #[trigger] s[j] by {
        if i < j {
            assert(stands_before(keys, ranking(keys)[i], ranking(keys)[j]));
        }
    }
}

/// The positions of the keys in ascending order of the keys, equal keys as they stand.
pub(crate) fn rank(keys: &Vec<i128>) -> (order: Vec<usize>)
    ensures
        order@.len() == keys@.len(),
        forall|i: int| 0 <= i < order@.len() ==> #[trigger] order@[i] == ranking(wide(keys@))[i],
        forall|i: int| 0 <= i < order@.len() ==> #[trigger] order@[i] < keys@.len(),
{
    let ghost all = wide(keys@);
    let mut order: Vec<usize> = Vec::new();
    let mut k: usize = 0;
    while k < keys.len()
        invariant
            k <= keys@.len(),
            all == wide(keys@),
            order@.len() == k,
            forall|i: int| 0 <= i < k ==> #[trigger] order@[i] == ranking(all.take(k as int))[i],
            forall|i: int| 0 <= i < k ==> #[trigger] order@[i] < k,
        decreases keys@.len() - k,
    {
        let key: i128 = keys[k];
        let ghost before = ranking(all.take(k as int));
        let ghost now = all.take(k + 1);
        proof {
            lemma_ranking(all.take(k as int));
            assert(now.drop_last() == all.take(k as int));
        }
        let mut p: usize = k;
        assert(before.take(k as int) == before);
        while p > 0 && keys[order[p - 1]] > key
            invariant
                p <= k,
                k < keys@.len(),
                all == wide(keys@),
                now == all.take(k + 1),
                key == keys@[k as int],
                order@.len() == k,
                before.len() == k,
                forall|i: int| 0 <= i < k ==> #[trigger] order@[i] == before[i],
                forall|i: int| 0 <= i < k ==> #[trigger] order@[i] < k,
                slot(before, now, key as int) == slot(before.take(p as int), now, key as int),
            decreases p,
        {
            assert(before.take(p as int).drop_last() == before.take(p - 1));
            assert(before.take(p as int).last() == order@[p - 1]);
            p -= 1;
        }
        proof {
            if p > 0 {
                assert(before.take(p as int).last() == order@[p - 1]);
            }
            assert(slot(before, now, key as int) == p);
            assert(ranking(now) == before.insert(p as int, k as int));
        }
        order.insert(p, k);
        k += 1;
    }
    assert(all.take(k as int) == all);
    order
}

/// What is arranged are the items themselves: each stands among the arranged, and each
/// of the arranged among them.
pub proof fn lemma_arranged_are_the_items<T>(items: Seq<T>, keys: Seq<int>)
    requires
        items.len() == keys.len(),
    ensures
        arranged(items, keys).len() == items.len(),
        forall|i: int| 0 <= i < items.len() ==> arranged(items, keys).contains(#[trigger] items[i]),
        forall|i: int| 0 <= i < items.len() ==> items.contains(#[trigger] arranged(items, keys)[i]),
{
    lemma_ranking(keys);
    let a = arranged(items, keys);
    assert forall|i: int| 0 <= i < items.len() implies a.contains(#[trigger] items[i]) by {
        assert(ranking(keys).contains(i));
        let k = choose|k: int| 0 <= k < ranking(keys).len() && ranking(keys)[k] == i;
        assert(a[k] == items[i]);
    }
    assert forall|i: int| 0 <= i < items.len() implies items.contains(#[trigger] a[i]) by {
        assert(a[i] == items[ranking(keys)[i]]);
    }
}

/// Arranged items stand in ascending order of their keys, those of equal keys as they
/// stood.
pub proof fn lemma_arranged_by_key<T>(items: Seq<T>, keys: Seq<int>, i: int, j: int)
    requires
        items.len() == keys.len(),
        0 <= i < j < keys.len(),
    ensures
        exists|a: int, b: int|
            0 <= a < keys.len() && 0 <= b < keys.len() && arranged(items, keys)[i] == items[a] && arranged(items, keys)[j]
                == items[b] && #[trigger] stands_before(keys, a, b),
{
    lemma_ranking(keys);
    assert(stands_before(keys, ranking(keys)[i], ranking(keys)[j]));
}

/// Amounts amount to the same in any arrangement.
pub proof fn lemma_sum_of_arranged(amounts: Seq<int>, keys: Seq<int>)
    requires
        amounts.len() == keys.len(),
    ensures
        sum(arranged(amounts, keys)) == sum(amounts),
    decreases keys.len(),
{
    if keys.len() > 0 {
        lemma_arranged_inserts(amounts, keys);
        lemma_sum_of_arranged(amounts.drop_last(), keys.drop_last());
        let at = slot(ranking(keys.drop_last()), keys, keys.last());
        lemma_sum_insert(arranged(amounts.drop_last(), keys.drop_last()), at, amounts.last());
    } else {
        assert(arranged(amounts, keys) == amounts);
    }
}

} // verus!
