//! Stable ordering of items by a two-part key.
//!
//! Block schedules, source lists and availability replies are all lists
//! ordered by a key, where items with equal keys keep the order they came in.

use vstd::prelude::*;

verus! {

/// A key of two parts: the first decides, the second breaks ties.
pub type SortKey = (u64, u128);

/// Lexicographic order on keys.
pub open spec fn key_lt(a: SortKey, b: SortKey) -> bool {
    a.0 < b.0 || (a.0 == b.0 && a.1 < b.1)
}

/// Item `x` comes before item `y`: its key is smaller, or the keys are equal
/// and `x` came first.
pub open spec fn precedes(keys: Seq<SortKey>, x: int, y: int) -> bool {
    key_lt(keys[x], keys[y]) || (keys[x] == keys[y] && x < y)
}

/// `order` lists every index of `keys` once, each before all those it
/// precedes.
pub open spec fn is_stable_order(keys: Seq<SortKey>, order: Seq<usize>) -> bool {
    &&& order.len() == keys.len()
    &&& forall|j: int| 0 <= j < order.len() ==> (#[trigger] order[j]) < keys.len()
    &&& forall|x: usize| x < keys.len() ==> #[trigger] order.contains(x)
    &&& forall|a: int, b: int|
        0 <= a < b < order.len() ==> precedes(keys, #[trigger] order[a] as int, #[trigger] order[b] as int)
}

/// The stable order of `keys`.
pub open spec fn stable_order_of(keys: Seq<SortKey>) -> Seq<usize> {
    choose|order: Seq<usize>| is_stable_order(keys, order)
}

/// The items of `items` in the order that `order` gives.
pub open spec fn reorder<T>(items: Seq<T>, order: Seq<usize>) -> Seq<T> {
    Seq::new(order.len(), |j: int| items[order[j] as int])
}

/// Exec counterpart of `key_lt`.
pub fn key_less(a: SortKey, b: SortKey) -> (less: bool)
    ensures
        less == key_lt(a, b),
{
    a.0 < b.0 || (a.0 == b.0 && a.1 < b.1)
}

/// `order` lists every index below `n` once, each before all those it
/// precedes.
pub open spec fn is_stable_prefix(keys: Seq<SortKey>, order: Seq<usize>, n: int) -> bool {
    &&& order.len() == n
    &&& forall|j: int| 0 <= j < order.len() ==> (#[trigger] order[j]) < n
    &&& forall|x: usize| x < n ==> #[trigger] order.contains(x)
    &&& forall|a: int, b: int|
        0 <= a < b < order.len() ==> precedes(keys, #[trigger] order[a] as int, #[trigger] order[b] as int)
}

/// The first place from `from` on at which the item of `order` has a key
/// above that of item `k`; the length of `order` where there is none.
pub open spec fn insertion_point(keys: Seq<SortKey>, order: Seq<usize>, k: int, from: int) -> int
    decreases order.len() - from,
{
    if from < 0 || from >= order.len() {
        order.len() as int
    } else if key_lt(keys[k], keys[order[from] as int]) {
        from
    } else {
        insertion_point(keys, order, k, from + 1)
    }
}

/// No item before the insertion point has a key above that of item `k`, and
/// the item at the insertion point has.
proof fn lemma_insertion_point(keys: Seq<SortKey>, order: Seq<usize>, k: int, from: int)
    requires
        0 <= from <= order.len(),
    ensures
        from <= insertion_point(keys, order, k, from) <= order.len(),
        forall|a: int|
            from <= a < insertion_point(keys, order, k, from) ==> !key_lt(
                keys[k],
                keys[(#[trigger] order[a]) as int],
            ),
        insertion_point(keys, order, k, from) < order.len() ==> key_lt(
            keys[k],
            keys[order[insertion_point(keys, order, k, from)] as int],
        ),
    decreases order.len() - from,
{
    if from < order.len() && !key_lt(keys[k], keys[order[from] as int]) {
        lemma_insertion_point(keys, order, k, from + 1);
    }
}

/// Putting item `k` at its insertion point into a stable order of the items
/// before it gives a stable order of the items up to it.
proof fn lemma_insert_keeps_order(keys: Seq<SortKey>, before: Seq<usize>, j: int, k: usize)
    requires
        k < keys.len(),
        is_stable_prefix(keys, before, k as int),
        0 <= j <= before.len(),
        forall|a: int| 0 <= a < j ==> !key_lt(keys[k as int], keys[(#[trigger] before[a]) as int]),
        j < before.len() ==> key_lt(keys[k as int], keys[before[j] as int]),
    ensures
        is_stable_prefix(keys, before.insert(j, k), k + 1),
{
    let after = before.insert(j, k);
    assert forall|a: int| 0 <= a < after.len() implies after[a] == (if a < j {
        before[a]
    } else if a == j {
        k
    } else {
        before[a - 1]
    }) by {}
    assert forall|x: usize| x < k + 1 implies #[trigger] after.contains(x) by {
        if x == k {
            assert(after[j] == x);
        } else {
            assert(before.contains(x));
            let i = choose|i: int| 0 <= i < before.len() && before[i] == x;
            if i < j {
                assert(after[i] == x);
            } else {
                assert(after[i + 1] == x);
            }
        }
    }
    assert forall|a: int, b: int| 0 <= a < b < after.len() implies precedes(
        keys,
        #[trigger] after[a] as int,
        #[trigger] after[b] as int,
    ) by {
        if b == j {
            assert(after[a] == before[a]);
        } else if a == j {
            assert(after[b] == before[b - 1]);
            if b - 1 > j {
                assert(precedes(keys, before[j] as int, before[b - 1] as int));
            }
        } else if a < j {
            assert(after[a] == before[a]);
            if b < j {
                assert(after[b] == before[b]);
            } else {
                assert(after[b] == before[b - 1]);
            }
        } else {
            assert(after[a] == before[a - 1]);
            assert(after[b] == before[b - 1]);
        }
    }
}

/// The items below `n` have a stable order.
proof fn lemma_stable_prefix_exists(keys: Seq<SortKey>, n: int)
    requires
        0 <= n <= keys.len(),
        n <= usize::MAX,
    ensures
        exists|order: Seq<usize>| is_stable_prefix(keys, order, n),
    decreases n,
{
    if n == 0 {
        assert(is_stable_prefix(keys, Seq::<usize>::empty(), 0));
    } else {
        let k = n - 1;
        lemma_stable_prefix_exists(keys, k);
        let before = choose|order: Seq<usize>| is_stable_prefix(keys, order, k);
        let j = insertion_point(keys, before, k, 0);
        lemma_insertion_point(keys, before, k, 0);
        lemma_insert_keeps_order(keys, before, j, k as usize);
        assert(is_stable_prefix(keys, before.insert(j, k as usize), n));
    }
}

/// Every list of keys has a stable order.
pub proof fn lemma_stable_order_exists(keys: Seq<SortKey>)
    requires
        keys.len() <= usize::MAX,
    ensures
        is_stable_order(keys, stable_order_of(keys)),
{
    let n = keys.len() as int;
    lemma_stable_prefix_exists(keys, n);
    let order = choose|order: Seq<usize>| is_stable_prefix(keys, order, n);
    assert(is_stable_order(keys, order));
}

/// The indices of `keys`, ordered by key, equal keys in index order.
pub fn stable_order(keys: &Vec<SortKey>) -> (order: Vec<usize>)
    ensures
        is_stable_order(keys@, order@),
        order@ == stable_order_of(keys@),
{
    let mut order: Vec<usize> = Vec::new();
    let mut k: usize = 0;
    while k < keys.len()
        invariant
            k <= keys.len(),
            is_stable_prefix(keys@, order@, k as int),
        decreases keys.len() - k,
    {
        let key = keys[k];
        let mut j: usize = 0;
        while j < order.len() && !key_less(key, keys[order[j]])
            invariant
                j <= order.len(),
                k < keys.len(),
                key == keys[k as int],
                is_stable_prefix(keys@, order@, k as int),
                forall|a: int| 0 <= a < j ==> !key_lt(key, keys[(#[trigger] order[a]) as int]),
            decreases order.len() - j,
        {
            j += 1;
        }
        proof {
            lemma_insert_keeps_order(keys@, order@, j as int, k);
        }
        order.insert(j, k);
        k += 1;
    }
    proof {
        lemma_stable_order_unique(keys@, order@, stable_order_of(keys@));
    }
    order
}

/// Only one order of the indices is stable: two that are, are the same up to
/// any position.
proof fn lemma_stable_order_agrees(keys: Seq<SortKey>, p: Seq<usize>, q: Seq<usize>, n: int)
    requires
        is_stable_order(keys, p),
        is_stable_order(keys, q),
        0 <= n <= keys.len(),
    ensures
        forall|i: int| 0 <= i < n ==> p[i] == q[i],
    decreases n,
{
    if n > 0 {
        lemma_stable_order_agrees(keys, p, q, n - 1);
        let j = n - 1;
        let x = p[j];
        let y = q[j];
        if x != y {
            assert(q.contains(x));
            let jq = choose|i: int| 0 <= i < q.len() && q[i] == x;
            assert(p.contains(y));
            let jp = choose|i: int| 0 <= i < p.len() && p[i] == y;
            if jq < j {
                assert(p[jq] == q[jq]);
                assert(precedes(keys, p[jq] as int, p[j] as int));
            } else if jp < j {
                assert(q[jp] == p[jp]);
                assert(precedes(keys, q[jp] as int, q[j] as int));
            } else {
                assert(precedes(keys, q[j] as int, q[jq] as int));
                assert(precedes(keys, p[j] as int, p[jp] as int));
            }
            assert(false);
        }
    }
}

/// The stable order of a list of keys is unique.
pub proof fn lemma_stable_order_unique(keys: Seq<SortKey>, p: Seq<usize>, q: Seq<usize>)
    requires
        is_stable_order(keys, p),
        is_stable_order(keys, q),
    ensures
        p == q,
        p == stable_order_of(keys),
{
    lemma_stable_order_agrees(keys, p, stable_order_of(keys), keys.len() as int);
    assert(p =~= stable_order_of(keys));
    lemma_stable_order_agrees(keys, p, q, keys.len() as int);
    assert(p =~= q);
}

} // verus!
