//! Stable ordering of positions by key.
//!
//! Every sort of the pipeline is a stable sort on one integer key. It is
//! stated once, as the order in which the positions of a key sequence come
//! out, and items are then read off in that order.

use vstd::prelude::*;
use itertools::Itertools;
use std::cmp::Ordering;

verus! {

/// Position `a` comes before position `b`: its key is smaller, or the keys
/// are equal and `a` is the earlier position.
pub open spec fn precedes(keys: Seq<u64>, a: int, b: int) -> bool {
    keys[a] < keys[b] || (keys[a] == keys[b] && a < b)
}

/// `order` lists every position of `keys` once, by ascending key, positions
/// with equal keys in ascending order.
pub open spec fn is_stable_order(keys: Seq<u64>, order: Seq<usize>) -> bool {
    &&& order.len() == keys.len()
    &&& forall|i: int| 0 <= i < order.len() ==> (#[trigger] order[i]) < keys.len()
    &&& forall|p: usize| p < keys.len() ==> #[trigger] order.contains(p)
    &&& forall|i: int, j: int|
        0 <= i < j < order.len()
            ==> precedes(keys, #[trigger] order[i] as int, #[trigger] order[j] as int)
}

/// The stable order of `keys`.
pub open spec fn stable_order_of(keys: Seq<u64>) -> Seq<usize> {
    choose|order: Seq<usize>| is_stable_order(keys, order)
}

/// The items of `items` read off in the order `order`.
pub open spec fn arranged<T>(items: Seq<T>, order: Seq<usize>) -> Seq<T> {
    Seq::new(order.len(), |i: int| items[order[i] as int])
}

proof fn lemma_orders_agree(keys: Seq<u64>, a: Seq<usize>, b: Seq<usize>, n: int)
    requires
        is_stable_order(keys, a),
        is_stable_order(keys, b),
        0 <= n <= keys.len(),
    ensures
        forall|i: int| 0 <= i < n ==> a[i] == b[i],
    decreases n,
{
    if n > 0 {
        lemma_orders_agree(keys, a, b, n - 1);
        // the position at `i` in `a` stands in `b`, and that at `i` in `b` in
        // `a`; neither stands before `i`, where the two agree, and not both
        // stand behind `i`, or each would come before the other
        let i = n - 1;
        assert(b.contains(a[i]));
        let m = choose|m: int| 0 <= m < b.len() && b[m] == a[i];
        assert(m >= i);
        assert(a.contains(b[i]));
        let w = choose|w: int| 0 <= w < a.len() && a[w] == b[i];
        assert(w >= i);
        assert(m == i || w == i);
    }
}

/// A key sequence has one stable order.
pub proof fn lemma_stable_order_unique(keys: Seq<u64>, a: Seq<usize>, b: Seq<usize>)
    requires
        is_stable_order(keys, a),
        is_stable_order(keys, b),
    ensures
        a == b,
{
    lemma_orders_agree(keys, a, b, keys.len() as int);
}

/// A stable order is the stable order.
pub proof fn lemma_stable_order_is(keys: Seq<u64>, order: Seq<usize>)
    requires
        is_stable_order(keys, order),
    ensures
        order == stable_order_of(keys),
        is_stable_order(keys, stable_order_of(keys)),
{
    lemma_stable_order_unique(keys, order, stable_order_of(keys));
}

/// Every key sequence has a stable order.
pub proof fn lemma_stable_order_exists(keys: Seq<u64>)
    requires
        keys.len() <= usize::MAX,
    ensures
        is_stable_order(keys, stable_order_of(keys)),
    decreases keys.len(),
{
    if keys.len() == 0 {
        assert(is_stable_order(keys, Seq::<usize>::empty()));
    } else {
        let rest = keys.drop_last();
        lemma_stable_order_exists(rest);
        let before = stable_order_of(rest);
        let n = rest.len() as usize;
        let at = insertion_point(keys, before, before.len() as int);
        lemma_insertion_point(keys, before, before.len() as int);
        let after = before.insert(at, n);
        assert forall|p: usize| p < keys.len() implies #[trigger] after.contains(p) by {
            if p == n {
                assert(after[at] == p);
            } else {
                assert(before.contains(p));
                let i = choose|i: int| 0 <= i < n && before[i] == p;
                if i < at {
                    assert(after[i] == p);
                } else {
                    assert(after[i + 1] == p);
                }
            }
        }
        assert(is_stable_order(keys, after));
    }
}

/// Where the last position of `keys` goes among the first `upto` entries of
/// `order`: behind the last entry whose key is not greater.
spec fn insertion_point(keys: Seq<u64>, order: Seq<usize>, upto: int) -> int
    decreases upto,
{
    if upto <= 0 || keys[order[upto - 1] as int] <= keys.last() {
        upto
    } else {
        insertion_point(keys, order, upto - 1)
    }
}

proof fn lemma_insertion_point(keys: Seq<u64>, order: Seq<usize>, upto: int)
    requires
        0 <= upto <= order.len(),
    ensures
        0 <= insertion_point(keys, order, upto) <= upto,
        forall|j: int|
            insertion_point(keys, order, upto) <= j < upto ==> keys[(#[trigger] order[j]) as int]
                > keys.last(),
        insertion_point(keys, order, upto) > 0 ==> keys[order[insertion_point(keys, order, upto)
            - 1] as int] <= keys.last(),
    decreases upto,
{
    if !(upto <= 0 || keys[order[upto - 1] as int] <= keys.last()) {
        lemma_insertion_point(keys, order, upto - 1);
    }
}

/// The positions of `keys` in stable ascending order of key.
///
/// An insertion sort from the back: linear on keys that are already in order,
/// as those read from a sorted annotation mostly are.
pub fn stable_order(keys: &Vec<u64>) -> (order: Vec<usize>)
    ensures
        is_stable_order(keys@, order@),
        order@ == stable_order_of(keys@),
{
    let mut order: Vec<usize> = Vec::new();
    let mut n: usize = 0;
    while n < keys.len()
        invariant
            n <= keys.len(),
            order.len() == n,
            forall|i: int| 0 <= i < n ==> (#[trigger] order[i]) < n,
            forall|p: usize| p < n ==> #[trigger] order@.contains(p),
            forall|i: int, j: int|
                0 <= i < j < n
                    ==> precedes(keys@, #[trigger] order[i] as int, #[trigger] order[j] as int),
        decreases keys.len() - n,
    {
        let key: u64 = keys[n];
        let mut at: usize = n;
        while at > 0 && keys[order[at - 1]] > key
            invariant
                at <= n,
                n < keys.len(),
                order.len() == n,
                key == keys[n as int],
                forall|i: int| 0 <= i < n ==> (#[trigger] order[i]) < n,
                forall|j: int| at <= j < n ==> keys[(#[trigger] order[j]) as int] > key,
            decreases at,
        {
            at = at - 1;
        }
        let ghost before = order@;
        order.insert(at, n);
        proof {
            let after = order@;
            assert forall|p: usize| p < n + 1 implies #[trigger] after.contains(p) by {
                if p == n {
                    assert(after[at as int] == p);
                } else {
                    assert(before.contains(p));
                    let i = choose|i: int| 0 <= i < n && before[i] == p;
                    if i < at {
                        assert(after[i] == p);
                    } else {
                        assert(after[i + 1] == p);
                    }
                }
            }
        }
        n = n + 1;
    }
    proof {
        lemma_stable_order_is(keys@, order@);
    }
    order
}

/// Each item carries its own position as second component.
pub open spec fn positioned(keyed: Seq<(u64, usize)>) -> bool {
    forall|i: int| 0 <= i < keyed.len() ==> (#[trigger] keyed[i]).1 == i
}

/// `out` holds the items of `keyed`, each once, by ascending key (the first
/// component); items with equal keys stand in the order of the positions they
/// carry.
pub open spec fn is_stable_sorting(keyed: Seq<(u64, usize)>, out: Seq<(u64, usize)>) -> bool {
    &&& out.len() == keyed.len()
    &&& forall|j: int|
        0 <= j < out.len() ==> (#[trigger] out[j]).1 < keyed.len() && keyed[out[j].1 as int]
            == out[j]
    &&& forall|i: int| 0 <= i < keyed.len() ==> out.contains(#[trigger] keyed[i])
    &&& forall|i: int, j: int|
        0 <= i < j < out.len() ==> (#[trigger] out[i]).0 < (#[trigger] out[j]).0 || (out[i].0
            == out[j].0 && out[i].1 < out[j].1)
}

/// Three-way comparison of two keys.
pub fn key_order(a: u64, b: u64) -> (r: Ordering)
    ensures
        r == (if a < b {
            Ordering::Less
        } else if a == b {
            Ordering::Equal
        } else {
            Ordering::Greater
        }),
{
    if a < b {
        Ordering::Less
    } else if a == b {
        Ordering::Equal
    } else {
        Ordering::Greater
    }
}

/// `Itertools::sorted_by` on `(key, position)` pairs, compared by key alone.
///
/// Trusted: itertools collects the items, sorts them with the stable
/// `slice::sort_by` and hands them back. The result therefore holds exactly
/// the given items in ascending order of key, and items with equal keys keep
/// their input order; since each item carries its input position, that is
/// ascending order of position.
#[verifier::external_body]
fn sorted_by_key(keyed: &Vec<(u64, usize)>) -> (out: Vec<(u64, usize)>)
    requires
        positioned(keyed@),
    ensures
        is_stable_sorting(keyed@, out@),
{
    keyed.iter().copied().sorted_by(|a, b| key_order(a.0, b.0)).collect()
}

/// The positions of `keys` in stable ascending order of key, by the sort of
/// itertools.
pub fn stable_order_merged(keys: &Vec<u64>) -> (order: Vec<usize>)
    ensures
        is_stable_order(keys@, order@),
        order@ == stable_order_of(keys@),
{
    let mut keyed: Vec<(u64, usize)> = Vec::new();
    let mut i: usize = 0;
    while i < keys.len()
        invariant
            i <= keys.len(),
            keyed.len() == i,
            forall|j: int| 0 <= j < i ==> #[trigger] keyed[j] == (keys[j], j as usize),
        decreases keys.len() - i,
    {
        keyed.push((keys[i], i));
        i = i + 1;
    }
    let sorted = sorted_by_key(&keyed);
    let mut order: Vec<usize> = Vec::new();
    let mut k: usize = 0;
    while k < sorted.len()
        invariant
            k <= sorted.len(),
            order.len() == k,
            forall|j: int| 0 <= j < k ==> #[trigger] order[j] == sorted[j].1,
        decreases sorted.len() - k,
    {
        order.push(sorted[k].1);
        k = k + 1;
    }
    proof {
        assert forall|p: usize| p < keys.len() implies #[trigger] order@.contains(p) by {
            let j = choose|j: int| 0 <= j < sorted.len() && sorted[j] == keyed[p as int];
            assert(order[j] == p);
        }
        lemma_stable_order_is(keys@, order@);
    }
    order
}

} // verus!
