//! Orderings over positions of a sequence.
//!
//! Every queue of the scheduler is served in an order given by a pair of
//! integer keys (class and id, remaining work and id, lane). Two positions
//! with equal keys keep their relative order, so an ordering is unique.

use vstd::prelude::*;

verus! {

/// Whether position `i` is served strictly before position `j`: the smaller
/// first key, then the smaller second key, then the earlier position.
pub open spec fn precedes(keys: Seq<(u64, u64)>, i: int, j: int) -> bool {
    ||| keys[i].0 < keys[j].0
    ||| keys[i].0 == keys[j].0 && keys[i].1 < keys[j].1
    ||| keys[i].0 == keys[j].0 && keys[i].1 == keys[j].1 && i < j
}

/// `order` lists every position of `keys` exactly once, in service order.
pub open spec fn is_service_order(keys: Seq<(u64, u64)>, order: Seq<usize>) -> bool {
    &&& order.len() == keys.len()
    &&& forall|a: int| 0 <= a < order.len() ==> 0 <= #[trigger] order[a] < keys.len()
    &&& forall|a: int, b: int|
        0 <= a < b < order.len() ==> precedes(keys, #[trigger] order[a] as int, #[trigger] order[b] as int)
    &&& forall|i: int| 0 <= i < keys.len() ==> #[trigger] order.contains(i as usize)
}

/// A service order is unique: two lists that both order `keys` are equal.
pub proof fn service_order_is_unique(keys: Seq<(u64, u64)>, a: Seq<usize>, b: Seq<usize>)
    requires
        is_service_order(keys, a),
        is_service_order(keys, b),
        keys.len() <= usize::MAX,
    ensures
        a == b,
{
    assert forall|k: int| 0 <= k < a.len() implies a[k] == b[k] by {
        agree_up_to(keys, a, b, k);
    }
    assert(a =~= b);
}

proof fn agree_up_to(keys: Seq<(u64, u64)>, a: Seq<usize>, b: Seq<usize>, k: int)
    requires
        is_service_order(keys, a),
        is_service_order(keys, b),
        keys.len() <= usize::MAX,
        0 <= k < a.len(),
    ensures
        a[k] == b[k],
    decreases k,
{
    assert forall|j: int| 0 <= j < k implies a[j] == b[j] by {
        agree_up_to(keys, a, b, j);
    }
    // a[k] occurs in b, and not before k; b[k] occurs in a, and not before k.
    assert(b.contains(a[k] as int as usize));
    let p = choose|p: int| 0 <= p < b.len() && b[p] == a[k];
    assert(a.contains(b[k] as int as usize));
    let q = choose|q: int| 0 <= q < a.len() && a[q] == b[k];
    if p < k {
        assert(a[p] == b[p]);
        assert(precedes(keys, a[p] as int, a[k] as int));
    } else if q < k {
        assert(a[q] == b[q]);
        assert(precedes(keys, b[q] as int, b[k] as int));
    } else if p > k && q > k {
        assert(precedes(keys, b[k] as int, b[p] as int));
        assert(precedes(keys, a[k] as int, a[q] as int));
    }
}

/// The positions of `keys` in service order.
pub fn service_order(keys: &Vec<(u64, u64)>) -> (order: Vec<usize>)
    ensures
        is_service_order(keys@, order@),
{
    let mut order: Vec<usize> = Vec::new();
    let mut i: usize = 0;
    while i < keys.len()
        invariant
            i <= keys.len(),
            order.len() == i,
            forall|a: int| 0 <= a < order.len() ==> 0 <= #[trigger] order@[a] < i,
            forall|a: int, b: int|
                0 <= a < b < order.len() ==> precedes(
                    keys@,
                    #[trigger] order@[a] as int,
                    #[trigger] order@[b] as int,
                ),
            forall|x: int| 0 <= x < i ==> #[trigger] order@.contains(x as usize),
        decreases keys.len() - i,
    {
        let mut p: usize = 0;
        while p < order.len() && (keys[order[p]].0 < keys[i].0 || (keys[order[p]].0 == keys[i].0
            && keys[order[p]].1 <= keys[i].1))
            invariant
                i < keys.len(),
                p <= order.len(),
                order.len() == i,
                forall|a: int| 0 <= a < order.len() ==> 0 <= #[trigger] order@[a] < i,
                forall|a: int| 0 <= a < p ==> precedes(keys@, #[trigger] order@[a] as int, i as int),
            decreases order.len() - p,
        {
            p = p + 1;
        }
        let ghost before = order@;
        order.insert(p, i);
        proof {
            assert(order@ == before.insert(p as int, i));
            assert forall|x: int| 0 <= x < i + 1 implies #[trigger] order@.contains(x as usize) by {
                if x == i {
                    assert(order@[p as int] == i);
                } else {
                    assert(before.contains(x as usize));
                    let q = choose|q: int| 0 <= q < before.len() && before[q] == x as usize;
                    if q < p {
                        assert(order@[q] == before[q]);
                    } else {
                        assert(order@[q + 1] == before[q]);
                    }
                }
            }
            assert forall|a: int, b: int| 0 <= a < b < order.len() implies precedes(
                keys@,
                #[trigger] order@[a] as int,
                #[trigger] order@[b] as int,
            ) by {
                if a < p && b < p {
                    assert(precedes(keys@, before[a] as int, before[b] as int));
                } else if a < p && b == p {
                } else if a < p && b > p {
                    assert(precedes(keys@, before[a] as int, before[b - 1] as int));
                } else if a == p {
                    let y = before[b - 1];
                    assert(precedes(keys@, i as int, before[p as int] as int));
                    if b - 1 > p {
                        assert(precedes(keys@, before[p as int] as int, before[b - 1] as int));
                    }
                } else {
                    assert(precedes(keys@, before[a - 1] as int, before[b - 1] as int));
                }
            }
        }
        i = i + 1;
    }
    order
}

/// `items` rearranged into the service order of their `keys`.
pub fn in_service_order(items: &Vec<usize>, keys: &Vec<(u64, u64)>) -> (out: Vec<usize>)
    requires
        items.len() == keys.len(),
    ensures
        ordered_by(items@, keys@, out@),
{
    let order = service_order(keys);
    let mut out: Vec<usize> = Vec::new();
    let mut n: usize = 0;
    while n < order.len()
        invariant
            n <= order.len(),
            items.len() == keys.len(),
            is_service_order(keys@, order@),
            out.len() == n,
            forall|k: int| 0 <= k < n ==> #[trigger] out@[k] == items@[order@[k] as int],
        decreases order.len() - n,
    {
        out.push(items[order[n]]);
        n = n + 1;
    }
    assert(is_service_order(keys@, order@) && picks(items@, order@, out@));
    out
}

/// `out[k]` is `items[order[k]]` throughout.
pub open spec fn picks(items: Seq<usize>, order: Seq<usize>, out: Seq<usize>) -> bool {
    &&& out.len() == order.len()
    &&& forall|k: int| 0 <= k < out.len() ==> #[trigger] out[k] == items[order[k] as int]
}

/// `out` is `items` in the service order of `keys`.
pub open spec fn ordered_by(items: Seq<usize>, keys: Seq<(u64, u64)>, out: Seq<usize>) -> bool {
    exists|order: Seq<usize>|
        is_service_order(keys, order) && #[trigger] picks(items, order, out)
}

/// Whoever comes earlier in a service order has the smaller first key, or the
/// same one and a second key that is no larger, or the same keys and came first;
/// no one is left out and no one comes twice.
pub proof fn a_service_order_is_by_key(keys: Seq<(u64, u64)>, order: Seq<usize>, a: int, b: int)
    requires
        is_service_order(keys, order),
        0 <= a < b < order.len(),
    ensures
        ({
            let (x, y) = (keys[order[a] as int], keys[order[b] as int]);
            &&& x.0 <= y.0
            &&& x.0 == y.0 ==> x.1 <= y.1
            &&& x == y ==> order[a] < order[b]
            &&& order[a] != order[b]
        }),
{
    assert(precedes(keys, order[a] as int, order[b] as int));
}

/// What is listed in service order is all that was to be listed, each item as
/// often as before.
pub proof fn a_service_order_keeps_every_item(
    items: Seq<usize>,
    keys: Seq<(u64, u64)>,
    out: Seq<usize>,
    i: int,
)
    requires
        items.len() == keys.len() <= usize::MAX,
        ordered_by(items, keys, out),
        0 <= i < items.len(),
    ensures
        out.len() == items.len(),
        out.contains(items[i]),
{
    let order = choose|order: Seq<usize>|
        is_service_order(keys, order) && #[trigger] picks(items, order, out);
    assert(order.contains(i as usize));
    let k = choose|k: int| 0 <= k < order.len() && order[k] == i as usize;
    assert(out[k] == items[i]);
}

} // verus!
