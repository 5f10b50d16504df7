//! What fusing lists of results means, entry by entry.

use crate::hybrid;
use crate::ieee;
use vstd::prelude::*;

verus! {

/// Entry `b` stands behind entry `a`: in a later list, or later in the same one.
pub open spec fn stands_behind(a: (int, int), b: (int, int)) -> bool {
    a.0 < b.0 || a.0 == b.0 && a.1 < b.1
}

/// `found` are the entries of an id, list by list and each list from its first entry on: every entry
/// of the id, and no other.
pub open spec fn entries_of(
    lists: Seq<Seq<(u64, u32)>>,
    id: u64,
    found: Seq<(int, int)>,
) -> bool {
    &&& forall|i: int, j: int|
        0 <= i < j < found.len() ==> stands_behind(#[trigger] found[i], #[trigger] found[j])
    &&& forall|l: int, p: int|
        0 <= l < lists.len() && 0 <= p < lists[l].len() && (#[trigger] lists[l][p]).0 == id
            ==> found.contains((l, p))
    &&& forall|j: int|
        0 <= j < found.len() ==> {
            let (l, p) = #[trigger] found[j];
            0 <= l < lists.len() && 0 <= p < lists[l].len() && lists[l][p].0 == id
        }
}

/// The entries of the first `n` lists, list by list.
spec fn places(lens: Seq<int>, n: int) -> Seq<(int, int)>
    decreases n,
{
    if n <= 0 {
        Seq::empty()
    } else {
        places(lens, n - 1) + Seq::new(lens[n - 1] as nat, |i: int| (n - 1, i))
    }
}

proof fn places_properties(lens: Seq<int>, n: int)
    requires
        0 <= n <= lens.len(),
        forall|l: int| 0 <= l < lens.len() ==> #[trigger] lens[l] >= 0,
    ensures
        forall|i: int, j: int|
            0 <= i < j < places(lens, n).len() ==> stands_behind(
                #[trigger] places(lens, n)[i],
                #[trigger] places(lens, n)[j],
            ),
        forall|j: int|
            0 <= j < places(lens, n).len() ==> {
                let (l, p) = #[trigger] places(lens, n)[j];
                0 <= l < n && 0 <= p < lens[l]
            },
        forall|l: int, p: int|
            #![trigger places(lens, n).contains((l, p))]
            0 <= l < n && 0 <= p < lens[l] ==> places(lens, n).contains((l, p)),
    decreases n,
{
    if n > 0 {
        places_properties(lens, n - 1);
        let before = places(lens, n - 1);
        let last = Seq::new(lens[n - 1] as nat, |i: int| (n - 1, i));
        let now = places(lens, n);
        assert(now == before + last);
        assert forall|l: int, p: int|
            #![trigger now.contains((l, p))]
            0 <= l < n && 0 <= p < lens[l] implies now.contains((l, p)) by {
            if l < n - 1 {
                assert(before.contains((l, p)));
                let j = choose|j: int| 0 <= j < before.len() && before[j] == (l, p);
                assert(now[j] == (l, p));
            } else {
                assert(now[before.len() + p] == (l, p));
            }
        }
    }
}

/// The places of the items of an id among the first `n` items.
spec fn hits<A>(items: Seq<(u64, A)>, at: Seq<(int, int)>, id: u64, n: int) -> Seq<(int, int)>
    decreases n,
{
    if n <= 0 {
        Seq::empty()
    } else if items[n - 1].0 == id {
        hits(items, at, id, n - 1).push(at[n - 1])
    } else {
        hits(items, at, id, n - 1)
    }
}

/// A place is that of an item of an id among the first `n` items.
spec fn is_of<A>(items: Seq<(u64, A)>, at: Seq<(int, int)>, id: u64, n: int, place: (int, int)) -> bool {
    exists|t: int| 0 <= t < n && #[trigger] at[t] == place && items[t].0 == id
}

/// What an id is credited with is what its entries are credited with, in their order.
proof fn hits_properties<A>(
    items: Seq<(u64, A)>,
    at: Seq<(int, int)>,
    credits: spec_fn((int, int)) -> A,
    id: u64,
    n: int,
)
    requires
        0 <= n <= items.len(),
        items.len() == at.len(),
        forall|t: int| 0 <= t < items.len() ==> (#[trigger] items[t]).1 == credits(at[t]),
        forall|i: int, j: int|
            0 <= i < j < at.len() ==> stands_behind(#[trigger] at[i], #[trigger] at[j]),
    ensures
        ({
            let found = hits(items, at, id, n);
            let parts = hybrid::contributions(items.take(n), id);
            &&& found.len() == parts.len()
            &&& forall|j: int| 0 <= j < found.len() ==> parts[j] == credits(#[trigger] found[j])
            &&& forall|j: int|
                0 <= j < found.len() ==> is_of(items, at, id, n, #[trigger] found[j])
            &&& forall|t: int|
                0 <= t < n && (#[trigger] items[t]).0 == id ==> found.contains(at[t])
            &&& forall|i: int, j: int|
                0 <= i < j < found.len() ==> stands_behind(#[trigger] found[i], #[trigger] found[j])
        }),
    decreases n,
{
    if n > 0 {
        hits_properties(items, at, credits, id, n - 1);
        assert(items.take(n).drop_last() =~= items.take(n - 1));
        assert(items.take(n).last() == items[n - 1]);
        let past = hits(items, at, id, n - 1);
        let found = hits(items, at, id, n);
        let parts = hybrid::contributions(items.take(n), id);
        let older = hybrid::contributions(items.take(n - 1), id);
        assert forall|j: int| 0 <= j < found.len() implies parts[j] == credits(
            #[trigger] found[j],
        ) by {
            if j < past.len() {
                assert(found[j] == past[j]);
                assert(parts[j] == older[j]);
            } else {
                assert(items[n - 1].1 == credits(at[n - 1]));
            }
        }
        assert forall|t: int| 0 <= t < n && (#[trigger] items[t]).0 == id implies found.contains(
            at[t],
        ) by {
            if t == n - 1 {
                assert(found[found.len() - 1] == at[t]);
            } else {
                assert(past.contains(at[t]));
                let j = choose|j: int| 0 <= j < past.len() && past[j] == at[t];
                assert(found[j] == at[t]);
            }
        }
        assert forall|j: int| 0 <= j < found.len() implies is_of(
            items,
            at,
            id,
            n,
            #[trigger] found[j],
        ) by {
            if j < past.len() {
                assert(is_of(items, at, id, n - 1, past[j]));
                let t = choose|t: int|
                    0 <= t < n - 1 && #[trigger] at[t] == past[j] && items[t].0 == id;
                assert(at[t] == found[j]);
            } else {
                assert(at[n - 1] == found[j]);
            }
        }
        assert forall|i: int, j: int| 0 <= i < j < found.len() implies stands_behind(
            #[trigger] found[i],
            #[trigger] found[j],
        ) by {
            assert(found[i] == past[i]);
            if j < past.len() {
                assert(found[j] == past[j]);
            } else {
                assert(is_of(items, at, id, n - 1, past[i]));
                let t = choose|t: int|
                    0 <= t < n - 1 && #[trigger] at[t] == past[i] && items[t].0 == id;
                assert(stands_behind(at[t], at[n - 1]));
            }
        }
    }
}

/// The entries of a list of lists are its places.
proof fn entries_found<A>(
    lists: Seq<Seq<(u64, u32)>>,
    lens: Seq<int>,
    items: Seq<(u64, A)>,
    credits: spec_fn((int, int)) -> A,
    id: u64,
)
    requires
        lens.len() == lists.len(),
        forall|l: int| 0 <= l < lists.len() ==> #[trigger] lens[l] == lists[l].len(),
        items.len() == places(lens, lens.len() as int).len(),
        forall|t: int|
            0 <= t < items.len() ==> {
                let (l, p) = places(lens, lens.len() as int)[t];
                &&& (#[trigger] items[t]).0 == lists[l][p].0
                &&& items[t].1 == credits((l, p))
            },
    ensures
        exists|found: Seq<(int, int)>|
            {
                &&& #[trigger] entries_of(lists, id, found)
                &&& found.len() == hybrid::contributions(items, id).len()
                &&& forall|j: int|
                    0 <= j < found.len() ==> hybrid::contributions(items, id)[j] == credits(
                        #[trigger] found[j],
                    )
            },
{
    let n = lens.len() as int;
    let at = places(lens, n);
    places_properties(lens, n);
    hits_properties(items, at, credits, id, items.len() as int);
    assert(items.take(items.len() as int) =~= items);
    let found = hits(items, at, id, items.len() as int);
    assert forall|l: int, p: int|
        0 <= l < lists.len() && 0 <= p < lists[l].len() && (#[trigger] lists[l][p]).0 == id implies found.contains(
        (l, p),
    ) by {
        assert(at.contains((l, p)));
        let t = choose|t: int| 0 <= t < at.len() && at[t] == (l, p);
        assert(items[t].0 == id);
    }
    assert forall|j: int| 0 <= j < found.len() implies {
        let (l, p) = #[trigger] found[j];
        0 <= l < lists.len() && 0 <= p < lists[l].len() && lists[l][p].0 == id
    } by {
        assert(is_of(items, at, id, items.len() as int, found[j]));
        let t = choose|t: int|
            0 <= t < items.len() && #[trigger] at[t] == found[j] && items[t].0 == id;
        assert(items[t].0 == id);
    }
    assert(entries_of(lists, id, found));
}

/// The lists by their entries.
pub open spec fn list_views(lists: Seq<Vec<(u64, u32)>>) -> Seq<Seq<(u64, u32)>> {
    lists.map_values(|l: Vec<(u64, u32)>| l@)
}

spec fn list_lens(lists: Seq<Vec<(u64, u32)>>) -> Seq<int> {
    lists.map_values(|l: Vec<(u64, u32)>| l@.len() as int)
}

proof fn rank_items_by_place(k: usize, lists: Seq<Vec<(u64, u32)>>, n: int)
    requires
        0 <= n <= lists.len(),
    ensures
        ({
            let items = hybrid::all_rank_items(k, lists, n);
            let at = places(list_lens(lists), n);
            &&& items.len() == at.len()
            &&& forall|t: int|
                0 <= t < items.len() ==> {
                    let (l, p) = #[trigger] at[t];
                    &&& 0 <= l < n
                    &&& 0 <= p < lists[l]@.len()
                    &&& items[t] == (lists[l]@[p].0, (k, (p + 1) as usize))
                }
        }),
    decreases n,
{
    if n > 0 {
        rank_items_by_place(k, lists, n - 1);
        assert(list_lens(lists)[n - 1] == lists[n - 1]@.len());
        let before = hybrid::all_rank_items(k, lists, n - 1);
        let items = hybrid::all_rank_items(k, lists, n);
        let at = places(list_lens(lists), n);
        assert forall|t: int| 0 <= t < items.len() implies {
            let (l, p) = #[trigger] at[t];
            &&& 0 <= l < n
            &&& 0 <= p < lists[l]@.len()
            &&& items[t] == (lists[l]@[p].0, (k, (p + 1) as usize))
        } by {
            if t < before.len() {
                assert(items[t] == before[t]);
                assert(at[t] == places(list_lens(lists), n - 1)[t]);
            }
        }
    }
}

/// An id is among results.
pub open spec fn is_among(results: Seq<(u64, u32)>, id: u64) -> bool {
    exists|i: int| 0 <= i < results.len() && (#[trigger] results[i]).0 == id
}

/// The score of an id comes of zero by crediting its entries one after the other, each by its rank:
/// the place in its list, counted from 1.
pub open spec fn credited_by_rank<F: Fn(u32, (usize, usize)) -> u32>(
    credit: F,
    k: usize,
    lists: Seq<Vec<(u64, u32)>>,
    result: (u64, u32),
) -> bool {
    exists|found: Seq<(int, int)>, trace: Seq<u32>|
        {
            &&& found.len() > 0
            &&& #[trigger] entries_of(list_views(lists), result.0, found)
            &&& #[trigger] trace.len() == found.len() + 1
            &&& trace[0] == 0
            &&& forall|j: int|
                0 <= j < found.len() ==> call_ensures(
                    credit,
                    (trace[j], (k, ((#[trigger] found[j]).1 + 1) as usize)),
                    trace[j + 1],
                )
            &&& result.1 == trace[found.len() as int]
        }
}

/// Reciprocal rank fusion: every id of the lists comes once, from the highest score to the lowest
/// and equal scores by id. The score of an id is what comes of zero by crediting its entries one
/// after the other: the first entry of a list by rank 1, and every further one by a rank that is one
/// greater than that of the entry before it.
pub proof fn ranks_are_credited<F: Fn(u32, (usize, usize)) -> u32>(
    credit: F,
    k: usize,
    lists: Seq<Vec<(u64, u32)>>,
    results: Seq<(u64, u32)>,
)
    requires
        hybrid::fused(
            credit,
            hybrid::all_rank_items(k, lists, lists.len() as int),
            results,
        ),
    ensures
        forall|i: int, j: int|
            0 <= i < j < results.len() ==> {
                let (a, b) = (#[trigger] results[i], #[trigger] results[j]);
                &&& a.0 != b.0
                &&& ieee::single_rank(a.1) > ieee::single_rank(b.1) || ieee::single_rank(a.1)
                    == ieee::single_rank(b.1) && a.0 < b.0
            },
        forall|l: int, p: int|
            0 <= l < lists.len() && 0 <= p < lists[l]@.len() ==> is_among(
                results,
                (#[trigger] lists[l]@[p]).0,
            ),
        forall|i: int|
            0 <= i < results.len() ==> #[trigger] credited_by_rank(credit, k, lists, results[i]),
{
    let n = lists.len() as int;
    let items = hybrid::all_rank_items(k, lists, n);
    let views = list_views(lists);
    let lens = list_lens(lists);
    let credits = |at: (int, int)| (k, (at.1 + 1) as usize);
    rank_items_by_place(k, lists, n);
    places_properties(lens, n);
    assert forall|l: int, p: int| 0 <= l < lists.len() && 0 <= p < lists[l]@.len() implies is_among(
        results,
        (#[trigger] lists[l]@[p]).0,
    ) by {
        assert(lens[l] == lists[l]@.len());
        assert(places(lens, n).contains((l, p)));
        let t = choose|t: int| 0 <= t < places(lens, n).len() && places(lens, n)[t] == (l, p);
        assert(items[t].0 == lists[l]@[p].0);
        assert(hybrid::occurs(items, lists[l]@[p].0));
        assert(hybrid::occurs(results, lists[l]@[p].0));
    }
    assert forall|i: int| 0 <= i < results.len() implies #[trigger] credited_by_rank(credit, k, lists, results[i]) by {
        let id = results[i].0;
        let parts = hybrid::contributions(items, id);
        assert forall|t: int| 0 <= t < items.len() implies {
            let (l, p) = places(lens, lens.len() as int)[t];
            &&& (#[trigger] items[t]).0 == views[l][p].0
            &&& items[t].1 == credits((l, p))
        } by {
            let (l, p) = places(lens, n)[t];
            assert(views[l] == lists[l]@);
        }
        entries_found(views, lens, items, credits, id);
        let found = choose|found: Seq<(int, int)>|
            {
                &&& #[trigger] entries_of(views, id, found)
                &&& found.len() == parts.len()
                &&& forall|j: int| 0 <= j < found.len() ==> parts[j] == credits(#[trigger] found[j])
            };
        let trace = choose|trace: Seq<u32>| #[trigger]
            hybrid::sums(credit, parts, trace) && results[i].1 == trace.last();
        assert(hybrid::occurs(items, id));
        let t = choose|t: int| 0 <= t < items.len() && (#[trigger] items[t]).0 == id;
        let (l, p) = places(lens, n)[t];
        assert(views[l] == lists[l]@);
        assert(views[l][p].0 == id);
        assert(found.contains((l, p)));
        assert forall|j: int| 0 <= j < found.len() implies call_ensures(
            credit,
            (trace[j], (k, ((#[trigger] found[j]).1 + 1) as usize)),
            trace[j + 1],
        ) by {
            assert(parts[j] == credits(found[j]));
        }
        assert(trace.len() == found.len() + 1);
    }
}

/// The weighted lists by their entries.
pub open spec fn weighted_views(lists: Seq<(u32, Vec<(u64, u32)>)>) -> Seq<Seq<(u64, u32)>> {
    lists.map_values(|l: (u32, Vec<(u64, u32)>)| l.1@)
}

spec fn weighted_lens(lists: Seq<(u32, Vec<(u64, u32)>)>) -> Seq<int> {
    lists.map_values(|l: (u32, Vec<(u64, u32)>)| l.1@.len() as int)
}

proof fn weight_items_by_place(lists: Seq<(u32, Vec<(u64, u32)>)>, n: int)
    requires
        0 <= n <= lists.len(),
    ensures
        ({
            let items = hybrid::all_weight_items(lists, n);
            let at = places(weighted_lens(lists), n);
            &&& items.len() == at.len()
            &&& forall|t: int|
                0 <= t < items.len() ==> {
                    let (l, p) = #[trigger] at[t];
                    &&& 0 <= l < n
                    &&& 0 <= p < lists[l].1@.len()
                    &&& items[t] == (lists[l].1@[p].0, (lists[l].0, lists[l].1@[p].1))
                }
        }),
    decreases n,
{
    if n > 0 {
        weight_items_by_place(lists, n - 1);
        assert(weighted_lens(lists)[n - 1] == lists[n - 1].1@.len());
        let before = hybrid::all_weight_items(lists, n - 1);
        let items = hybrid::all_weight_items(lists, n);
        let at = places(weighted_lens(lists), n);
        assert forall|t: int| 0 <= t < items.len() implies {
            let (l, p) = #[trigger] at[t];
            &&& 0 <= l < n
            &&& 0 <= p < lists[l].1@.len()
            &&& items[t] == (lists[l].1@[p].0, (lists[l].0, lists[l].1@[p].1))
        } by {
            if t < before.len() {
                assert(items[t] == before[t]);
                assert(at[t] == places(weighted_lens(lists), n - 1)[t]);
            }
        }
    }
}

/// The score of an id comes of zero by crediting its entries one after the other, each by the weight
/// of its list and its score there.
pub open spec fn credited_by_weight<F: Fn(u32, (u32, u32)) -> u32>(
    credit: F,
    lists: Seq<(u32, Vec<(u64, u32)>)>,
    result: (u64, u32),
) -> bool {
    exists|found: Seq<(int, int)>, trace: Seq<u32>|
        {
            &&& found.len() > 0
            &&& #[trigger] entries_of(weighted_views(lists), result.0, found)
            &&& #[trigger] trace.len() == found.len() + 1
            &&& trace[0] == 0
            &&& forall|j: int|
                0 <= j < found.len() ==> {
                    let (l, p) = #[trigger] found[j];
                    call_ensures(
                        credit,
                        (trace[j], (lists[l].0, lists[l].1@[p].1)),
                        trace[j + 1],
                    )
                }
            &&& result.1 == trace[found.len() as int]
        }
}

/// Weighted fusion: every id of the lists comes once, from the highest score to the lowest and equal
/// scores by id. The score of an id is what comes of zero by crediting its entries one after the
/// other, each by the weight of its own list and its own score there.
pub proof fn weights_are_credited<F: Fn(u32, (u32, u32)) -> u32>(
    credit: F,
    lists: Seq<(u32, Vec<(u64, u32)>)>,
    results: Seq<(u64, u32)>,
)
    requires
        hybrid::fused(credit, hybrid::all_weight_items(lists, lists.len() as int), results),
    ensures
        forall|i: int, j: int|
            0 <= i < j < results.len() ==> {
                let (a, b) = (#[trigger] results[i], #[trigger] results[j]);
                &&& a.0 != b.0
                &&& ieee::single_rank(a.1) > ieee::single_rank(b.1) || ieee::single_rank(a.1)
                    == ieee::single_rank(b.1) && a.0 < b.0
            },
        forall|l: int, p: int|
            0 <= l < lists.len() && 0 <= p < lists[l].1@.len() ==> is_among(
                results,
                (#[trigger] lists[l].1@[p]).0,
            ),
        forall|i: int|
            0 <= i < results.len() ==> #[trigger] credited_by_weight(credit, lists, results[i]),
{
    let n = lists.len() as int;
    let items = hybrid::all_weight_items(lists, n);
    let views = weighted_views(lists);
    let lens = weighted_lens(lists);
    let credits = |at: (int, int)| (lists[at.0].0, lists[at.0].1@[at.1].1);
    weight_items_by_place(lists, n);
    places_properties(lens, n);
    assert forall|l: int, p: int| 0 <= l < lists.len() && 0 <= p < lists[l].1@.len() implies is_among(
        results,
        (#[trigger] lists[l].1@[p]).0,
    ) by {
        assert(lens[l] == lists[l].1@.len());
        assert(places(lens, n).contains((l, p)));
        let t = choose|t: int| 0 <= t < places(lens, n).len() && places(lens, n)[t] == (l, p);
        assert(items[t].0 == lists[l].1@[p].0);
        assert(hybrid::occurs(items, lists[l].1@[p].0));
        assert(hybrid::occurs(results, lists[l].1@[p].0));
    }
    assert forall|i: int| 0 <= i < results.len() implies #[trigger] credited_by_weight(credit, lists, results[i]) by {
        let id = results[i].0;
        let parts = hybrid::contributions(items, id);
        assert forall|t: int| 0 <= t < items.len() implies {
            let (l, p) = places(lens, lens.len() as int)[t];
            &&& (#[trigger] items[t]).0 == views[l][p].0
            &&& items[t].1 == credits((l, p))
        } by {
            let (l, p) = places(lens, n)[t];
            assert(views[l] == lists[l].1@);
        }
        entries_found(views, lens, items, credits, id);
        let found = choose|found: Seq<(int, int)>|
            {
                &&& #[trigger] entries_of(views, id, found)
                &&& found.len() == parts.len()
                &&& forall|j: int| 0 <= j < found.len() ==> parts[j] == credits(#[trigger] found[j])
            };
        let trace = choose|trace: Seq<u32>| #[trigger]
            hybrid::sums(credit, parts, trace) && results[i].1 == trace.last();
        assert(hybrid::occurs(items, id));
        let t = choose|t: int| 0 <= t < items.len() && (#[trigger] items[t]).0 == id;
        let (l, p) = places(lens, n)[t];
        assert(views[l] == lists[l].1@);
        assert(views[l][p].0 == id);
        assert(found.contains((l, p)));
        assert forall|j: int| 0 <= j < found.len() implies {
            let (l, p) = #[trigger] found[j];
            call_ensures(credit, (trace[j], (lists[l].0, lists[l].1@[p].1)), trace[j + 1])
        } by {
            assert(parts[j] == credits(found[j]));
        }
        assert(trace.len() == found.len() + 1);
    }
}

} // verus!
