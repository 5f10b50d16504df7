//! Stable ordering of items by a key.

use crate::ieee;
use vstd::prelude::*;

verus! {

/// A sort key: items are ordered by `major`, then by `minor`.
#[derive(Debug, Clone, Copy, PartialEq, Eq, Structural)]
pub struct SortKey {
    pub major: i64,
    pub minor: u64,
}

/// Position `a` comes before position `b`: its key is smaller, or the keys are equal and it
/// stands further to the front.
pub open spec fn before(keys: Seq<SortKey>, a: int, b: int) -> bool {
    ||| keys[a].major < keys[b].major
    ||| keys[a].major == keys[b].major && keys[a].minor < keys[b].minor
    ||| keys[a].major == keys[b].major && keys[a].minor == keys[b].minor && a < b
}

/// Every position of `order` comes before those that follow it.
pub open spec fn ordered(keys: Seq<SortKey>, order: Seq<usize>) -> bool {
    forall|i: int, j: int|
        0 <= i < j < order.len() ==> before(keys, #[trigger] order[i] as int, #[trigger] order[j] as int)
}

/// `order` holds exactly the positions from `lo` up to `hi`.
pub open spec fn covers(order: Seq<usize>, lo: int, hi: int) -> bool {
    &&& order.len() == hi - lo
    &&& forall|i: int| 0 <= i < order.len() ==> lo <= #[trigger] order[i] < hi
    &&& forall|x: usize| lo <= x < hi ==> #[trigger] order.contains(x)
}

/// `order` lists all positions of `keys` from the smallest key to the largest, equal keys in the
/// order in which they stand.
pub open spec fn is_stable_order(keys: Seq<SortKey>, order: Seq<usize>) -> bool {
    covers(order, 0, keys.len() as int) && ordered(keys, order)
}

/// The items of `items` in the given order.
pub open spec fn arranged<T>(items: Seq<T>, order: Seq<usize>) -> Seq<T> {
    Seq::new(order.len(), |i: int| items[order[i] as int])
}

/// Two lists that hold the same positions, each ordered, are equal.
pub proof fn stable_order_unique(keys: Seq<SortKey>, a: Seq<usize>, b: Seq<usize>)
    requires
        ordered(keys, a),
        ordered(keys, b),
        a.len() == b.len(),
        forall|x: usize| a.contains(x) <==> b.contains(x),
    ensures
        a == b,
    decreases a.len(),
{
    if a.len() > 0 {
        let last = a.len() - 1;
        assert(a.contains(a[last]));
        assert(b.contains(b[last]));
        let i = choose|i: int| 0 <= i < b.len() && b[i] == a[last];
        let j = choose|j: int| 0 <= j < a.len() && a[j] == b[last];
        if a[last] != b[last] {
            assert(before(keys, b[i] as int, b[last] as int));
            assert(before(keys, a[j] as int, a[last] as int));
            assert(false);
        }
        let a0 = a.drop_last();
        let b0 = b.drop_last();
        assert forall|x: usize| a0.contains(x) implies b0.contains(x) by {
            let p = choose|p: int| 0 <= p < a0.len() && a0[p] == x;
            assert(a[p] == x);
            assert(a.contains(x));
            let q = choose|q: int| 0 <= q < b.len() && b[q] == x;
            if q == last {
                assert(before(keys, a[p] as int, a[last] as int));
            }
            assert(b0[q] == x);
        }
        assert forall|x: usize| b0.contains(x) implies a0.contains(x) by {
            let p = choose|p: int| 0 <= p < b0.len() && b0[p] == x;
            assert(b[p] == x);
            assert(b.contains(x));
            let q = choose|q: int| 0 <= q < a.len() && a[q] == x;
            if q == last {
                assert(before(keys, b[p] as int, b[last] as int));
            }
            assert(a0[q] == x);
        }
        stable_order_unique(keys, a0, b0);
        assert(a =~= a0.push(a[last]));
        assert(b =~= b0.push(b[last]));
    }
}

/// The list of all positions of `keys` that is ordered: `stable_order_exists` and
/// `stable_order_unique` show that there is exactly one.
pub open spec fn stable_order_of(keys: Seq<SortKey>) -> Seq<usize> {
    choose|order: Seq<usize>| is_stable_order(keys, order)
}

/// A list of all positions that is ordered is the stable order.
pub proof fn stable_order_is_the_one(keys: Seq<SortKey>, order: Seq<usize>)
    requires
        is_stable_order(keys, order),
    ensures
        order == stable_order_of(keys),
{
    let other = stable_order_of(keys);
    assert(is_stable_order(keys, other));
    assert forall|x: usize| order.contains(x) <==> other.contains(x) by {
        if order.contains(x) {
            let p = choose|p: int| 0 <= p < order.len() && order[p] == x;
            assert(0 <= order[p] < keys.len());
        }
        if other.contains(x) {
            let p = choose|p: int| 0 <= p < other.len() && other[p] == x;
            assert(0 <= other[p] < keys.len());
        }
    }
    stable_order_unique(keys, order, other);
}

/// Where an item goes into an ordered list: after all positions that come before it.
spec fn insertion_point(keys: Seq<SortKey>, order: Seq<usize>, x: int) -> int
    decreases order.len(),
{
    if order.len() == 0 || before(keys, order.last() as int, x) {
        order.len() as int
    } else {
        insertion_point(keys, order.drop_last(), x)
    }
}

proof fn insertion_point_splits(keys: Seq<SortKey>, order: Seq<usize>, x: int)
    requires
        ordered(keys, order),
        forall|i: int| 0 <= i < order.len() ==> #[trigger] order[i] != x,
    ensures
        0 <= insertion_point(keys, order, x) <= order.len(),
        forall|i: int|
            0 <= i < insertion_point(keys, order, x) ==> before(keys, #[trigger] order[i] as int, x),
        forall|i: int|
            insertion_point(keys, order, x) <= i < order.len() ==> before(
                keys,
                x,
                #[trigger] order[i] as int,
            ),
    decreases order.len(),
{
    if order.len() == 0 {
    } else if before(keys, order.last() as int, x) {
        assert forall|i: int| 0 <= i < order.len() implies before(keys, #[trigger] order[i] as int, x) by {
            if i < order.len() - 1 {
                assert(before(keys, order[i] as int, order[order.len() - 1] as int));
            }
        }
    } else {
        let init = order.drop_last();
        insertion_point_splits(keys, init, x);
        assert(forall|i: int| 0 <= i < init.len() ==> init[i] == order[i]);
        assert forall|i: int|
            insertion_point(keys, order, x) <= i < order.len() implies before(
            keys,
            x,
            #[trigger] order[i] as int,
        ) by {
            if i < order.len() - 1 {
                assert(before(keys, x, init[i] as int));
            }
        }
        assert forall|i: int| 0 <= i < insertion_point(keys, order, x) implies before(
            keys,
            #[trigger] order[i] as int,
            x,
        ) by {
            assert(before(keys, init[i] as int, x));
        }
    }
}

/// Every list of keys has a stable order.
pub proof fn stable_order_exists(keys: Seq<SortKey>)
    requires
        keys.len() <= usize::MAX,
    ensures
        is_stable_order(keys, stable_order_of(keys)),
{
    let order = stable_prefix_order(keys, keys.len());
    assert(is_stable_order(keys, order));
}

proof fn stable_prefix_order(keys: Seq<SortKey>, n: nat) -> (order: Seq<usize>)
    requires
        n <= keys.len() <= usize::MAX,
    ensures
        ordered(keys, order),
        covers(order, 0, n as int),
    decreases n,
{
    if n == 0 {
        Seq::empty()
    } else {
        let x = (n - 1) as usize;
        let prev = stable_prefix_order(keys, (n - 1) as nat);
        let at = insertion_point(keys, prev, x as int);
        insertion_point_splits(keys, prev, x as int);
        let order = prev.insert(at, x);
        assert forall|y: usize| 0 <= y < n implies #[trigger] order.contains(y) by {
            if y == x {
                assert(order[at] == x);
            } else {
                assert(prev.contains(y));
                let p = choose|p: int| 0 <= p < prev.len() && prev[p] == y;
                if p < at {
                    assert(order[p] == y);
                } else {
                    assert(order[p + 1] == y);
                }
            }
        }
        assert forall|i: int, j: int| 0 <= i < j < order.len() implies before(
            keys,
            #[trigger] order[i] as int,
            #[trigger] order[j] as int,
        ) by {
            let i0 = if i < at { i } else { i - 1 };
            let j0 = if j < at { j } else { j - 1 };
            if i != at {
                assert(order[i] == prev[i0]);
            }
            if j != at {
                assert(order[j] == prev[j0]);
            }
        }
        order
    }
}

/// Arranging items by a list of all their positions is a permutation of them.
pub proof fn arranged_is_permutation<T>(items: Seq<T>, order: Seq<usize>)
    requires
        covers(order, 0, items.len() as int),
        order.no_duplicates(),
        items.len() <= usize::MAX,
    ensures
        arranged(items, order).to_multiset() == items.to_multiset(),
    decreases items.len(),
{
    if items.len() == 0 {
        assert(arranged(items, order) =~= items);
    } else {
        let last = (items.len() - 1) as usize;
        assert(order.contains(last));
        let p = choose|p: int| 0 <= p < order.len() && order[p] == last;
        let rest = order.remove(p);
        let front = items.drop_last();
        assert forall|x: usize| 0 <= x < front.len() implies #[trigger] rest.contains(x) by {
            assert(order.contains(x));
            let q = choose|q: int| 0 <= q < order.len() && order[q] == x;
            assert(q != p);
            assert(rest[if q < p { q } else { q - 1 }] == x);
        }
        assert forall|i: int| 0 <= i < rest.len() implies 0 <= #[trigger] rest[i] < front.len() by {
            let q = if i < p { i } else { i + 1 };
            assert(rest[i] == order[q]);
            assert(order[q] != order[p]);
        }
        assert forall|i: int, j: int| 0 <= i < rest.len() && 0 <= j < rest.len() && i != j implies rest[i] != rest[j] by {
            assert(rest[i] == order[if i < p { i } else { i + 1 }]);
            assert(rest[j] == order[if j < p { j } else { j + 1 }]);
        }
        arranged_is_permutation(front, rest);
        assert(arranged(items, order) =~= arranged(front, rest).insert(p, items.last()));
        vstd::seq_lib::to_multiset_insert(arranged(front, rest), p, items.last());
        assert(items =~= front.push(items.last()));
        vstd::seq_lib::to_multiset_build(front, items.last());
    }
}

/// An ordered list holds no position twice.
pub proof fn ordered_has_no_duplicates(keys: Seq<SortKey>, order: Seq<usize>)
    requires
        ordered(keys, order),
    ensures
        order.no_duplicates(),
{
    assert forall|i: int, j: int| 0 <= i < order.len() && 0 <= j < order.len() && i != j implies order[i] != order[j] by {
        if i < j {
            assert(before(keys, order[i] as int, order[j] as int));
        } else {
            assert(before(keys, order[j] as int, order[i] as int));
        }
    }
}

/// Whether position `a` comes before position `b`.
fn comes_before(keys: &Vec<SortKey>, a: usize, b: usize) -> (r: bool)
    requires
        a < keys@.len(),
        b < keys@.len(),
    ensures
        r == before(keys@, a as int, b as int),
{
    let x = keys[a];
    let y = keys[b];
    x.major < y.major || (x.major == y.major && (x.minor < y.minor || (x.minor == y.minor && a < b)))
}

/// Merges two ordered lists of neighbouring ranges of positions.
fn merge(
    keys: &Vec<SortKey>,
    left: Vec<usize>,
    right: Vec<usize>,
    Ghost(lo): Ghost<int>,
    Ghost(mid): Ghost<int>,
    Ghost(hi): Ghost<int>,
) -> (out: Vec<usize>)
    requires
        0 <= lo <= mid <= hi <= keys@.len(),
        ordered(keys@, left@),
        ordered(keys@, right@),
        covers(left@, lo, mid),
        covers(right@, mid, hi),
    ensures
        ordered(keys@, out@),
        covers(out@, lo, hi),
{
    let mut out: Vec<usize> = Vec::with_capacity(left.len());
    let mut i: usize = 0;
    let mut j: usize = 0;
    while i < left.len() || j < right.len()
        invariant
            i <= left@.len(),
            j <= right@.len(),
            out@.len() == i + j,
            0 <= lo <= mid <= hi <= keys@.len(),
            ordered(keys@, left@),
            ordered(keys@, right@),
            covers(left@, lo, mid),
            covers(right@, mid, hi),
            ordered(keys@, out@),
            forall|p: int| 0 <= p < out@.len() ==> lo <= #[trigger] out@[p] < hi,
            forall|p: int| 0 <= p < i ==> out@.contains(#[trigger] left@[p]),
            forall|p: int| 0 <= p < j ==> out@.contains(#[trigger] right@[p]),
            forall|p: int, q: int|
                0 <= p < out@.len() && i <= q < left@.len() ==> before(
                    keys@,
                    #[trigger] out@[p] as int,
                    #[trigger] left@[q] as int,
                ),
            forall|p: int, q: int|
                0 <= p < out@.len() && j <= q < right@.len() ==> before(
                    keys@,
                    #[trigger] out@[p] as int,
                    #[trigger] right@[q] as int,
                ),
        decreases left@.len() + right@.len() - i - j,
    {
        let ghost before_push = out@;
        let take_left = if i >= left.len() {
            false
        } else if j >= right.len() {
            true
        } else {
            comes_before(keys, left[i], right[j])
        };
        if take_left {
            out.push(left[i]);
            proof {
                let n = before_push.len() as int;
                assert forall|x: usize| before_push.contains(x) implies out@.contains(x) by {
                    let p = choose|p: int| 0 <= p < before_push.len() && before_push[p] == x;
                    assert(out@[p] == x);
                }
                assert(out@[n] == left@[i as int]);
                assert forall|p: int, q: int| 0 <= p < out@.len() && j <= q < right@.len() implies before(
                    keys@,
                    #[trigger] out@[p] as int,
                    #[trigger] right@[q] as int,
                ) by {
                    if p == n {
                        assert(before(keys@, left@[i as int] as int, right@[j as int] as int));
                        if q > j {
                            assert(before(keys@, right@[j as int] as int, right@[q] as int));
                        }
                    }
                }
            }
            i += 1;
        } else {
            out.push(right[j]);
            proof {
                let n = before_push.len() as int;
                assert forall|x: usize| before_push.contains(x) implies out@.contains(x) by {
                    let p = choose|p: int| 0 <= p < before_push.len() && before_push[p] == x;
                    assert(out@[p] == x);
                }
                assert(out@[n] == right@[j as int]);
                assert forall|p: int, q: int| 0 <= p < out@.len() && i <= q < left@.len() implies before(
                    keys@,
                    #[trigger] out@[p] as int,
                    #[trigger] left@[q] as int,
                ) by {
                    if p == n {
                        assert(left@[i as int] != right@[j as int]);
                        assert(before(keys@, right@[j as int] as int, left@[i as int] as int));
                        if q > i {
                            assert(before(keys@, left@[i as int] as int, left@[q] as int));
                        }
                    }
                }
            }
            j += 1;
        }
    }
    proof {
        assert forall|x: usize| lo <= x < hi implies #[trigger] out@.contains(x) by {
            if x < mid {
                assert(left@.contains(x));
            } else {
                assert(right@.contains(x));
            }
        }
    }
    out
}

/// The positions from `lo` up to `hi`, ordered.
fn sort_range(keys: &Vec<SortKey>, lo: usize, hi: usize) -> (out: Vec<usize>)
    requires
        lo <= hi <= keys@.len(),
    ensures
        ordered(keys@, out@),
        covers(out@, lo as int, hi as int),
    decreases hi - lo,
{
    if hi - lo <= 1 {
        let mut out: Vec<usize> = Vec::new();
        if lo < hi {
            out.push(lo);
            assert(out@[0] == lo);
        }
        return out;
    }
    let mid: usize = lo + (hi - lo) / 2;
    let left = sort_range(keys, lo, mid);
    let right = sort_range(keys, mid, hi);
    merge(keys, left, right, Ghost(lo as int), Ghost(mid as int), Ghost(hi as int))
}

/// All positions of `keys` from the smallest key to the largest; equal keys keep their order.
pub fn stable_order(keys: &Vec<SortKey>) -> (order: Vec<usize>)
    ensures
        is_stable_order(keys@, order@),
        order@ == stable_order_of(keys@),
{
    let order = sort_range(keys, 0, keys.len());
    proof {
        stable_order_is_the_one(keys@, order@);
    }
    order
}

/// The items in the given order of positions.
pub fn arrange<T: Copy>(items: &Vec<T>, order: &Vec<usize>) -> (out: Vec<T>)
    requires
        forall|i: int| 0 <= i < order@.len() ==> #[trigger] order@[i] < items@.len(),
    ensures
        out@ == arranged(items@, order@),
{
    let mut out: Vec<T> = Vec::with_capacity(order.len());
    let mut i: usize = 0;
    while i < order.len()
        invariant
            i <= order@.len(),
            out@.len() == i,
            forall|j: int| 0 <= j < order@.len() ==> #[trigger] order@[j] < items@.len(),
            forall|j: int| 0 <= j < i ==> out@[j] == items@[order@[j] as int],
        decreases order@.len() - i,
    {
        out.push(items[order[i]]);
        i += 1;
    }
    assert(out@ =~= arranged(items@, order@));
    out
}

/// The keys of items that are ordered by their distance alone.
pub open spec fn distance_keys<T>(items: Seq<(T, u32)>) -> Seq<SortKey> {
    Seq::new(items.len(), |i: int| SortKey { major: ieee::single_rank(items[i].1) as i64, minor: 0 })
}

/// The items from the smallest distance to the largest, equal distances in the order in which
/// they stand.
pub open spec fn by_distance<T>(items: Seq<(T, u32)>) -> Seq<(T, u32)> {
    arranged(items, stable_order_of(distance_keys(items)))
}

/// No distance is NaN.
pub open spec fn comparable<T>(items: Seq<(T, u32)>) -> bool {
    forall|i: int| 0 <= i < items.len() ==> !ieee::single_nan(#[trigger] items[i].1)
}

/// Orders items by distance, the nearest first.
pub fn sort_by_distance<T: Copy>(items: &Vec<(T, u32)>) -> (out: Vec<(T, u32)>)
    requires
        comparable(items@),
    ensures
        out@ == by_distance(items@),
{
    let mut keys: Vec<SortKey> = Vec::with_capacity(items.len());
    let mut i: usize = 0;
    while i < items.len()
        invariant
            i <= items@.len(),
            keys@ == distance_keys(items@).take(i as int),
        decreases items@.len() - i,
    {
        keys.push(SortKey { major: ieee::single_key(items[i].1), minor: 0 });
        i += 1;
        assert(keys@ =~= distance_keys(items@).take(i as int));
    }
    assert(keys@ =~= distance_keys(items@));
    let order = stable_order(&keys);
    arrange(items, &order)
}

/// Sorting by distance takes every item to one place.
pub proof fn by_distance_places<T>(items: Seq<(T, u32)>)
    requires
        items.len() <= usize::MAX,
    ensures
        is_stable_order(distance_keys(items), stable_order_of(distance_keys(items))),
        stable_order_of(distance_keys(items)).no_duplicates(),
        by_distance(items).len() == items.len(),
        forall|i: int|
            0 <= i < items.len() ==> #[trigger] by_distance(items)[i] == items[stable_order_of(
                distance_keys(items),
            )[i] as int],
{
    let keys = distance_keys(items);
    stable_order_exists(keys);
    ordered_has_no_duplicates(keys, stable_order_of(keys));
}

/// Sorting by distance neither adds, drops nor changes an item.
pub proof fn by_distance_is_permutation<T>(items: Seq<(T, u32)>)
    requires
        items.len() <= usize::MAX,
    ensures
        by_distance(items).len() == items.len(),
        by_distance(items).to_multiset() == items.to_multiset(),
{
    let keys = distance_keys(items);
    stable_order_exists(keys);
    ordered_has_no_duplicates(keys, stable_order_of(keys));
    arranged_is_permutation(items, stable_order_of(keys));
}

/// After sorting by distance no item stands behind one with a larger distance.
pub proof fn by_distance_is_sorted<T>(items: Seq<(T, u32)>)
    requires
        items.len() <= usize::MAX,
    ensures
        forall|i: int, j: int|
            0 <= i < j < items.len() ==> ieee::single_rank(#[trigger] by_distance(items)[i].1) <= ieee::single_rank(
                #[trigger] by_distance(items)[j].1,
            ),
{
    let keys = distance_keys(items);
    stable_order_exists(keys);
    let order = stable_order_of(keys);
    assert forall|i: int, j: int| 0 <= i < j < items.len() implies ieee::single_rank(
        #[trigger] by_distance(items)[i].1,
    ) <= ieee::single_rank(#[trigger] by_distance(items)[j].1) by {
        assert(before(keys, order[i] as int, order[j] as int));
    }
}

} // verus!
