//! What a search does, step by step: which partitions it looks at, what it finds there, and how it
//! ranks what it found.

use crate::fusion_laws;
use crate::ieee;
use crate::index_ivf_rq::IndexModel;
use crate::index_ivf_rq;
use crate::number_laws;
use crate::ordering;
use crate::rabitq;
use crate::search::{QueryCode, SearchOptions};
use crate::search;
use crate::sql;
use crate::sql_parser;
use vstd::prelude::*;

verus! {

/// `order` takes items to their places from the nearest to the farthest: every place is named once,
/// and equally distant items stay in the order in which they came.
pub open spec fn orders_by_distance<T>(items: Seq<(T, u32)>, order: Seq<usize>) -> bool {
    &&& order.len() == items.len()
    &&& forall|i: int| 0 <= i < order.len() ==> #[trigger] order[i] < items.len()
    &&& forall|i: int, j: int|
        0 <= i < j < order.len() ==> {
            let (a, b) = (#[trigger] order[i] as int, #[trigger] order[j] as int);
            let (x, y) = (
                number_laws::single_value(items[a].1),
                number_laws::single_value(items[b].1),
            );
            x < y || x == y && a < b
        }
}

/// `best` are the `n` nearest of items, or all of them where there are no more, from the nearest
/// on.
pub open spec fn are_nearest<T>(items: Seq<(T, u32)>, n: int, best: Seq<(T, u32)>) -> bool {
    &&& best.len() == if n < items.len() {
        n
    } else {
        items.len() as int
    }
    &&& exists|order: Seq<usize>| #[trigger]
        orders_by_distance(items, order) && forall|i: int|
            0 <= i < best.len() ==> #[trigger] best[i] == items[order[i] as int]
}

/// Sorting by distance puts the nearest first.
pub proof fn sorting_means<T>(items: Seq<(T, u32)>, n: int)
    requires
        items.len() <= usize::MAX,
        0 <= n,
    ensures
        are_nearest(items, n, search::first(ordering::by_distance(items), n)),
        are_nearest(items, items.len() as int, ordering::by_distance(items)),
{
    ordering::by_distance_places(items);
    let keys = ordering::distance_keys(items);
    let order = ordering::stable_order_of(keys);
    assert forall|i: int, j: int| 0 <= i < j < order.len() implies {
        let (a, b) = (#[trigger] order[i] as int, #[trigger] order[j] as int);
        let (x, y) = (
            number_laws::single_value(items[a].1),
            number_laws::single_value(items[b].1),
        );
        x < y || x == y && a < b
    } by {
        let (a, b) = (order[i] as int, order[j] as int);
        assert(ordering::before(keys, a, b));
        number_laws::singles_compare_by_value(items[a].1, items[b].1);
        number_laws::singles_compare_by_value(items[b].1, items[a].1);
    }
    assert(orders_by_distance(items, order));
    let best = search::first(ordering::by_distance(items), n);
    assert forall|i: int| 0 <= i < best.len() implies #[trigger] best[i] == items[order[i] as int] by {
        assert(best[i] == ordering::by_distance(items)[i]);
    }
    assert forall|i: int| 0 <= i < items.len() implies #[trigger] ordering::by_distance(items)[i]
        == items[order[i] as int] by {}
}

/// A vector passes a filter: there is none, or it has a payload of which the filter holds.
pub open spec fn fits_filter(m: IndexModel, filter: Option<sql::Pred>, id: u64) -> bool {
    match filter {
        None => true,
        Some(p) => id < m.payloads.len() && p.holds(
            crate::payload::payload_fields(m.payloads[id as int]),
        ),
    }
}

/// A partition is not ruled out by what is known of it.
pub open spec fn may_fit(m: IndexModel, filter: Option<sql::Pred>, p: int) -> bool {
    match filter {
        None => true,
        Some(pred) => pred.may_match(m.stats[p]),
    }
}

/// The partitions that are not ruled out, from the first on, each with its distance from the query.
pub open spec fn are_routes<F: Fn(&Vec<u32>, u32) -> u32>(
    route: F,
    m: IndexModel,
    filter: Option<sql::Pred>,
    routes: Seq<(usize, u32)>,
) -> bool {
    &&& forall|i: int, j: int|
        0 <= i < j < routes.len() ==> (#[trigger] routes[i]).0 < (#[trigger] routes[j]).0
    &&& forall|i: int|
        0 <= i < routes.len() ==> {
            let p = (#[trigger] routes[i]).0 as int;
            &&& p < m.partitions.len()
            &&& may_fit(m, filter, p)
            &&& call_ensures(route, (&m.rotated_centroids[p], m.norms[p]), routes[i].1)
        }
    &&& forall|p: int|
        0 <= p < m.partitions.len() && #[trigger] may_fit(m, filter, p) ==> has_route(routes, p)
}

/// A partition is among routes.
pub open spec fn has_route(routes: Seq<(usize, u32)>, p: int) -> bool {
    exists|i: int| 0 <= i < routes.len() && (#[trigger] routes[i]).0 == p
}

/// The entries of partitions that pass a filter: `at` names every one of them by the place of its
/// partition and its own place there, in order, and what is found of each is its id and the distance
/// that is estimated from what the query reads of its code.
pub open spec fn are_found<E: Fn(u64, u32, u32) -> u32>(
    estimate: E,
    m: IndexModel,
    query: QueryCode,
    filter: Option<sql::Pred>,
    looked_at: Seq<(usize, u32)>,
    at: Seq<(int, int)>,
    found: Seq<(u64, u32)>,
) -> bool {
    &&& at.len() == found.len()
    &&& forall|i: int, j: int|
        0 <= i < j < at.len() ==> fusion_laws::stands_behind(#[trigger] at[i], #[trigger] at[j])
    &&& forall|t: int|
        0 <= t < at.len() ==> {
            let (q, i) = #[trigger] at[t];
            let entries = m.partitions[looked_at[q].0 as int];
            &&& 0 <= q < looked_at.len()
            &&& 0 <= i < entries.len()
            &&& fits_filter(m, filter, entries[i].0)
            &&& found[t].0 == entries[i].0
            &&& call_ensures(
                estimate,
                (
                    query.reading(m.dim, entries[i].1.bits) as u64,
                    entries[i].1.alpha,
                    entries[i].1.beta,
                ),
                found[t].1,
            )
        }
    &&& forall|q: int, i: int|
        0 <= q < looked_at.len() && 0 <= i < m.partitions[looked_at[q].0 as int].len()
            && fits_filter(m, filter, (#[trigger] m.partitions[looked_at[q].0 as int][i]).0)
            ==> at.contains((q, i))
}

/// The distance of a vector by its SQ8 code: the code stands where its entry does, and every number
/// is restored within the range of its dimension.
pub open spec fn is_sq8_distance<X: Fn(&Vec<u32>) -> u32, R: Fn(u8, u32, u32) -> u32>(
    exact: X,
    restore: R,
    m: IndexModel,
    id: u64,
    distance: u32,
) -> bool {
    exists|pos: int, vector: Vec<u32>|
        {
            let p = m.id_to_partition[id as int] as int;
            &&& id < m.raw.len()
            &&& p < m.partitions.len()
            &&& 0 <= pos < m.partitions[p].len()
            &&& pos < m.sq8[p].codes.len()
            &&& (#[trigger] m.partitions[m.id_to_partition[id as int] as int][pos]).0 == id
            &&& vector@.len() == m.sq8[p].min.len()
            &&& forall|d: int|
                0 <= d < vector@.len() ==> call_ensures(
                    restore,
                    (m.sq8[p].codes[pos][d], m.sq8[p].min[d], m.sq8[p].max[d]),
                    #[trigger] vector@[d],
                )
            &&& #[trigger] call_ensures(exact, (&vector,), distance)
        }
}

/// A vector has an SQ8 code.
pub open spec fn has_sq8_code(m: IndexModel, id: u64) -> bool {
    let p = m.id_to_partition[id as int] as int;
    &&& id < m.raw.len()
    &&& p < m.partitions.len()
    &&& exists|pos: int|
        0 <= pos < m.partitions[p].len() && pos < m.sq8[p].codes.len() && #[trigger] is_first_of(
            m.partitions[p],
            id,
            pos,
        )
}

/// The first entry of a partition with an id.
pub open spec fn is_first_of(entries: Seq<(u64, rabitq::Code)>, id: u64, pos: int) -> bool {
    &&& entries[pos].0 == id
    &&& forall|j: int| 0 <= j < pos ==> (#[trigger] entries[j]).0 != id
}

/// Candidates are measured again, one by one: by their SQ8 codes where that is asked for and the
/// codes are up to date, else by their vectors. One that cannot be measured is as far as can be.
pub open spec fn are_measured_again<X: Fn(&Vec<u32>) -> u32, R: Fn(u8, u32, u32) -> u32>(
    exact: X,
    restore: R,
    m: IndexModel,
    by_sq8: bool,
    before: Seq<(u64, u32)>,
    after: Seq<(u64, u32)>,
) -> bool {
    &&& after.len() == before.len()
    &&& forall|i: int|
        #![trigger after[i]]
        0 <= i < after.len() ==> {
            let id = before[i].0;
            &&& after[i].0 == id
            &&& if by_sq8 && !m.sq8_dirty {
                ||| is_sq8_distance(exact, restore, m, id, after[i].1)
                ||| !has_sq8_code(m, id) && after[i].1 == ieee::SINGLE_MAX
            } else if id < m.raw.len() {
                call_ensures(exact, (&m.raw[id as int],), after[i].1)
            } else {
                after[i].1 == ieee::SINGLE_MAX
            }
        }
}

/// A search: of the partitions that the filter does not rule out, the nearest are looked at, as many
/// as are asked for and all where none or more than there are; the entries that pass the filter are
/// found there; where that is asked for, the nearest of them are measured again, all of them where
/// all partitions were looked at; and the nearest are the results.
pub open spec fn search_means<
    F: Fn(&Vec<u32>, u32) -> u32,
    E: Fn(u64, u32, u32) -> u32,
    X: Fn(&Vec<u32>) -> u32,
    R: Fn(u8, u32, u32) -> u32,
>(
    route: F,
    estimate: E,
    exact: X,
    restore: R,
    m: IndexModel,
    query: QueryCode,
    options: SearchOptions,
    filter: Option<sql::Pred>,
    routes: Seq<(usize, u32)>,
    looked_at: Seq<(usize, u32)>,
    at: Seq<(int, int)>,
    found: Seq<(u64, u32)>,
    top: Seq<(u64, u32)>,
    ranked: Seq<(u64, u32)>,
    results: Seq<(u64, u32)>,
) -> bool {
    let count = m.partitions.len() as int;
    let all = options.nprobe == 0 || options.nprobe >= count;
    &&& filter == match options.sql_filter {
        None => None,
        Some(text) => match sql_parser::parsed_text(text@) {
            Ok(p) => Some(p),
            Err(_) => None,
        },
    }
    &&& are_routes(route, m, filter, routes)
    &&& are_nearest(
        routes,
        if all {
            count
        } else {
            options.nprobe as int
        },
        looked_at,
    )
    &&& are_found(estimate, m, query, filter, looked_at, at, found)
    &&& if options.refine && options.refine_k > 0 {
        &&& are_nearest(
            found,
            if all {
                found.len() as int
            } else {
                options.refine_k as int
            },
            top,
        )
        &&& are_measured_again(exact, restore, m, options.sq8_refine, top, ranked)
    } else {
        ranked == found
    }
    &&& are_nearest(ranked, options.k as int, results)
}

spec fn spots_in(
    m: IndexModel,
    entries: Seq<(u64, rabitq::Code)>,
    filter: Option<sql::Pred>,
    q: int,
    n: int,
) -> Seq<(int, int)>
    decreases n,
{
    if n <= 0 {
        Seq::empty()
    } else if search::passes(m, entries[n - 1].0, filter) {
        spots_in(m, entries, filter, q, n - 1).push((q, n - 1))
    } else {
        spots_in(m, entries, filter, q, n - 1)
    }
}

spec fn spots(m: IndexModel, pids: Seq<usize>, filter: Option<sql::Pred>, n: int) -> Seq<(int, int)>
    decreases n,
{
    if n <= 0 {
        Seq::empty()
    } else {
        let entries = m.partitions[pids[n - 1] as int];
        spots(m, pids, filter, n - 1) + spots_in(m, entries, filter, n - 1, entries.len() as int)
    }
}

proof fn passes_is_fits(m: IndexModel, filter: Option<sql::Pred>, id: u64)
    ensures
        search::passes(m, id, filter) == fits_filter(m, filter, id),
{
}

proof fn spots_in_properties(
    m: IndexModel,
    entries: Seq<(u64, rabitq::Code)>,
    filter: Option<sql::Pred>,
    q: int,
    n: int,
)
    requires
        0 <= n <= entries.len(),
    ensures
        ({
            let s = spots_in(m, entries, filter, q, n);
            let p = search::passing(m, entries, filter, n);
            &&& s.len() == p.len()
            &&& forall|t: int|
                0 <= t < s.len() ==> {
                    &&& (#[trigger] s[t]).0 == q
                    &&& 0 <= s[t].1 < n
                    &&& p[t] == entries[s[t].1]
                    &&& search::passes(m, entries[s[t].1].0, filter)
                }
            &&& forall|i: int, j: int|
                0 <= i < j < s.len() ==> (#[trigger] s[i]).1 < (#[trigger] s[j]).1
            &&& forall|i: int|
                0 <= i < n && search::passes(m, (#[trigger] entries[i]).0, filter) ==> s.contains(
                    (q, i),
                )
        }),
    decreases n,
{
    if n > 0 {
        spots_in_properties(m, entries, filter, q, n - 1);
        let before = spots_in(m, entries, filter, q, n - 1);
        let s = spots_in(m, entries, filter, q, n);
        assert forall|i: int|
            0 <= i < n && search::passes(m, (#[trigger] entries[i]).0, filter) implies s.contains(
            (q, i),
        ) by {
            if i == n - 1 {
                assert(s[s.len() - 1] == (q, i));
            } else {
                assert(before.contains((q, i)));
                let t = choose|t: int| 0 <= t < before.len() && before[t] == (q, i);
                assert(s[t] == (q, i));
            }
        }
    }
}

proof fn spots_properties(m: IndexModel, pids: Seq<usize>, filter: Option<sql::Pred>, n: int)
    requires
        0 <= n <= pids.len(),
    ensures
        ({
            let s = spots(m, pids, filter, n);
            let p = search::passing_in(m, pids, filter, n);
            &&& s.len() == p.len()
            &&& forall|t: int|
                0 <= t < s.len() ==> {
                    let (q, i) = #[trigger] s[t];
                    &&& 0 <= q < n
                    &&& 0 <= i < m.partitions[pids[q] as int].len()
                    &&& p[t] == m.partitions[pids[q] as int][i]
                    &&& search::passes(m, m.partitions[pids[q] as int][i].0, filter)
                }
            &&& forall|i: int, j: int|
                0 <= i < j < s.len() ==> fusion_laws::stands_behind(#[trigger] s[i], #[trigger] s[j])
            &&& forall|q: int, i: int|
                0 <= q < n && 0 <= i < m.partitions[pids[q] as int].len() && search::passes(
                    m,
                    (#[trigger] m.partitions[pids[q] as int][i]).0,
                    filter,
                ) ==> s.contains((q, i))
        }),
    decreases n,
{
    if n > 0 {
        spots_properties(m, pids, filter, n - 1);
        let entries = m.partitions[pids[n - 1] as int];
        spots_in_properties(m, entries, filter, n - 1, entries.len() as int);
        let before = spots(m, pids, filter, n - 1);
        let last = spots_in(m, entries, filter, n - 1, entries.len() as int);
        let s = spots(m, pids, filter, n);
        let p = search::passing_in(m, pids, filter, n);
        let earlier = search::passing_in(m, pids, filter, n - 1);
        assert forall|t: int| 0 <= t < s.len() implies {
            let (q, i) = #[trigger] s[t];
            &&& 0 <= q < n
            &&& 0 <= i < m.partitions[pids[q] as int].len()
            &&& p[t] == m.partitions[pids[q] as int][i]
            &&& search::passes(m, m.partitions[pids[q] as int][i].0, filter)
        } by {
            if t < before.len() {
                assert(s[t] == before[t]);
                assert(p[t] == earlier[t]);
            } else {
                assert(s[t] == last[t - before.len()]);
            }
        }
        assert forall|i: int, j: int| 0 <= i < j < s.len() implies fusion_laws::stands_behind(
            #[trigger] s[i],
            #[trigger] s[j],
        ) by {
            if j < before.len() {
                assert(s[i] == before[i] && s[j] == before[j]);
            } else {
                assert(s[j] == last[j - before.len()]);
                if i < before.len() {
                    assert(s[i] == before[i]);
                    assert(before[i].0 < n - 1);
                } else {
                    assert(s[i] == last[i - before.len()]);
                }
            }
        }
        assert forall|q: int, i: int|
            0 <= q < n && 0 <= i < m.partitions[pids[q] as int].len() && search::passes(
                m,
                (#[trigger] m.partitions[pids[q] as int][i]).0,
                filter,
            ) implies s.contains((q, i)) by {
            if q < n - 1 {
                assert(before.contains((q, i)));
                let t = choose|t: int| 0 <= t < before.len() && before[t] == (q, i);
                assert(s[t] == (q, i));
            } else {
                assert(entries[i].0 == m.partitions[pids[q] as int][i].0);
                assert(last.contains((q, i)));
                let t = choose|t: int| 0 <= t < last.len() && last[t] == (q, i);
                assert(s[before.len() + t] == (q, i));
            }
        }
    }
}

proof fn eligible_are_routes<F: Fn(&Vec<u32>, u32) -> u32>(
    route: F,
    m: IndexModel,
    filter: Option<sql::Pred>,
    routed: Seq<(usize, u32)>,
)
    requires
        m.partitions.len() <= usize::MAX,
        search::routed_by(
            route,
            m,
            search::eligible(m, filter, m.partitions.len() as int),
            routed,
        ),
    ensures
        are_routes(route, m, filter, routed),
        routed.len() <= m.partitions.len(),
{
    let n = m.partitions.len() as int;
    eligible_is_exact(m, filter, n);
    let pids = search::eligible(m, filter, n);
    assert forall|p: int| 0 <= p < m.partitions.len() && #[trigger] may_fit(m, filter, p) implies has_route(
        routed,
        p,
    ) by {
        assert(search::may_pass(m, p, filter));
        assert(pids.contains(p as usize));
        let i = choose|i: int| 0 <= i < pids.len() && pids[i] == p as usize;
        assert(routed[i].0 == p);
    }
    assert forall|i: int, j: int| 0 <= i < j < routed.len() implies (#[trigger] routed[i]).0 < (
    #[trigger] routed[j]).0 by {
        assert(pids[i] < pids[j]);
    }
    assert forall|i: int| 0 <= i < routed.len() implies {
        let p = (#[trigger] routed[i]).0 as int;
        &&& p < m.partitions.len()
        &&& may_fit(m, filter, p)
        &&& call_ensures(route, (&m.rotated_centroids[p], m.norms[p]), routed[i].1)
    } by {
        assert(pids[i] < n);
    }
}

proof fn eligible_is_exact(m: IndexModel, filter: Option<sql::Pred>, n: int)
    requires
        0 <= n <= usize::MAX,
    ensures
        ({
            let pids = search::eligible(m, filter, n);
            &&& pids.len() <= n
            &&& forall|j: int|
                0 <= j < pids.len() ==> 0 <= #[trigger] pids[j] < n && search::may_pass(
                    m,
                    pids[j] as int,
                    filter,
                )
            &&& forall|i: int, j: int|
                0 <= i < j < pids.len() ==> #[trigger] pids[i] < #[trigger] pids[j]
            &&& forall|p: int|
                0 <= p < n && #[trigger] search::may_pass(m, p, filter) ==> pids.contains(p as usize)
        }),
    decreases n,
{
    if n > 0 {
        eligible_is_exact(m, filter, n - 1);
        let before = search::eligible(m, filter, n - 1);
        let now = search::eligible(m, filter, n);
        assert forall|p: int| 0 <= p < n && #[trigger] search::may_pass(m, p, filter) implies now.contains(
            p as usize,
        ) by {
            if p == n - 1 {
                assert(now[now.len() - 1] == p);
            } else {
                assert(before.contains(p as usize));
                let j = choose|j: int| 0 <= j < before.len() && before[j] == p as usize;
                assert(now[j] == p as usize);
            }
        }
    }
}

proof fn sq8_is_measured<X: Fn(&Vec<u32>) -> u32, R: Fn(u8, u32, u32) -> u32>(
    exact: X,
    restore: R,
    m: IndexModel,
    id: u64,
    distance: Option<u32>,
)
    requires
        index_ivf_rq::sq8_measured(restore, exact, m, id, distance),
    ensures
        distance matches Some(d) ==> is_sq8_distance(exact, restore, m, id, d),
        distance is None ==> !has_sq8_code(m, id),
{
    let p = m.id_to_partition[id as int] as int;
    match distance {
        Some(d) => {
            let (pos, vector) = choose|pos: int, vector: Vec<u32>| #[trigger]
                index_ivf_rq::sq8_reads(restore, exact, m, id, pos, vector, d);
            assert(m.partitions[p][pos].0 == id);
            assert(call_ensures(exact, (&vector,), d));
        },
        None => {
            if has_sq8_code(m, id) {
                let pos = choose|pos: int|
                    0 <= pos < m.partitions[p].len() && pos < m.sq8[p].codes.len()
                        && #[trigger] is_first_of(m.partitions[p], id, pos);
                assert(index_ivf_rq::sq8_place(m, id, pos));
            }
        },
    }
}

/// The entries that pass are found, each at its place.
pub proof fn passing_are_found<E: Fn(u64, u32, u32) -> u32>(
    estimate: E,
    m: IndexModel,
    query: QueryCode,
    filter: Option<sql::Pred>,
    looked_at: Seq<(usize, u32)>,
    pids: Seq<usize>,
    found: Seq<(u64, u32)>,
) -> (at: Seq<(int, int)>)
    requires
        pids.len() == looked_at.len(),
        forall|q: int| 0 <= q < pids.len() ==> #[trigger] pids[q] == looked_at[q].0,
        search::estimated(
            estimate,
            query,
            m.dim,
            search::passing_in(m, pids, filter, pids.len() as int),
            found,
        ),
    ensures
        are_found(
            estimate,
            m,
            query,
            filter,
            looked_at,
            at,
            found,
        ),
{
    let at = spots(m, pids, filter, pids.len() as int);
    spots_properties(m, pids, filter, pids.len() as int);
    let entries = search::passing_in(m, pids, filter, pids.len() as int);
    assert forall|t: int| 0 <= t < at.len() implies {
        let (q, i) = #[trigger] at[t];
        let part = m.partitions[looked_at[q].0 as int];
        &&& 0 <= q < looked_at.len()
        &&& 0 <= i < part.len()
        &&& fits_filter(m, filter, part[i].0)
        &&& found[t].0 == part[i].0
        &&& call_ensures(
            estimate,
            (
                query.reading(m.dim, part[i].1.bits) as u64,
                part[i].1.alpha,
                part[i].1.beta,
            ),
            found[t].1,
        )
    } by {
        let (q, i) = at[t];
        assert(pids[q] == looked_at[q].0);
        passes_is_fits(m, filter, m.partitions[pids[q] as int][i].0);
        assert(search::estimate_of(estimate, query, m.dim, entries[t], found[t]));
    }
    assert forall|q: int, i: int|
        0 <= q < looked_at.len() && 0 <= i < m.partitions[looked_at[q].0 as int].len()
            && fits_filter(
            m,
            filter,
            (#[trigger] m.partitions[looked_at[q].0 as int][i]).0,
        ) implies at.contains((q, i)) by {
        assert(pids[q] == looked_at[q].0);
        passes_is_fits(m, filter, m.partitions[pids[q] as int][i].0);
        assert(search::passes(m, m.partitions[pids[q] as int][i].0, filter));
    }
    at
}

proof fn remeasured_are_measured_again<
    X: Fn(&Vec<u32>) -> u32,
    R: Fn(u8, u32, u32) -> u32,
>(
    exact: X,
    restore: R,
    m: IndexModel,
    options: SearchOptions,
    top: Seq<(u64, u32)>,
    ranked: Seq<(u64, u32)>,
)
    requires
        m.raw.len() > 0,
        ranked.len() == top.len(),
        forall|i: int|
            #![trigger ranked[i]]
            0 <= i < ranked.len() ==> search::remeasured_one(
                search::remeasure_mode(m, options),
                exact,
                restore,
                m,
                top[i],
                ranked[i],
            ),
    ensures
        are_measured_again(exact, restore, m, options.sq8_refine, top, ranked),
{
    let by_sq8 = options.sq8_refine;
    assert forall|i: int|
        #![trigger ranked[i]]
        0 <= i < ranked.len() implies {
        let id = top[i].0;
        &&& ranked[i].0 == id
        &&& if by_sq8 && !m.sq8_dirty {
            ||| is_sq8_distance(exact, restore, m, id, ranked[i].1)
            ||| !has_sq8_code(m, id) && ranked[i].1 == ieee::SINGLE_MAX
        } else if id < m.raw.len() {
            call_ensures(exact, (&m.raw[id as int],), ranked[i].1)
        } else {
            ranked[i].1 == ieee::SINGLE_MAX
        }
    } by {
        let id = top[i].0;
        assert(search::remeasured_one(
            search::remeasure_mode(m, options),
            exact,
            restore,
            m,
            top[i],
            ranked[i],
        ));
        if by_sq8 && !m.sq8_dirty {
            if index_ivf_rq::sq8_measured(restore, exact, m, id, Some(ranked[i].1)) {
                sq8_is_measured(exact, restore, m, id, Some(ranked[i].1));
            } else {
                sq8_is_measured(exact, restore, m, id, None);
            }
        }
    }
}

/// A search does what it should at every step.
pub proof fn searches_mean<
    F: Fn(&Vec<u32>, u32) -> u32,
    E: Fn(u64, u32, u32) -> u32,
    X: Fn(&Vec<u32>) -> u32,
    R: Fn(u8, u32, u32) -> u32,
>(
    route: F,
    estimate: E,
    exact: X,
    restore: R,
    m: IndexModel,
    query: QueryCode,
    options: SearchOptions,
    results: Seq<(u64, u32)>,
)
    requires
        m.wf(),
        m.partitions.len() <= usize::MAX,
        search::search_outcome(route, estimate, exact, restore, m, query, options, results),
    ensures
        m.raw.len() == 0 || options.k == 0 ==> results.len() == 0,
        m.raw.len() > 0 && options.k > 0 ==> exists|
            filter: Option<sql::Pred>,
            routes: Seq<(usize, u32)>,
            looked_at: Seq<(usize, u32)>,
            at: Seq<(int, int)>,
            found: Seq<(u64, u32)>,
            top: Seq<(u64, u32)>,
            ranked: Seq<(u64, u32)>,
        | #[trigger]
            search_means(
                route,
                estimate,
                exact,
                restore,
                m,
                query,
                options,
                filter,
                routes,
                looked_at,
                at,
                found,
                top,
                ranked,
                results,
            ),
{
    if m.raw.len() > 0 && options.k > 0 {
        let (routes, found, ranked) = choose|
            routed: Seq<(usize, u32)>,
            candidates: Seq<(u64, u32)>,
            ranked: Seq<(u64, u32)>,
        | #[trigger]
            search::searched(
                route,
                estimate,
                exact,
                restore,
                m,
                query,
                options,
                routed,
                candidates,
                ranked,
                results,
            );
        let filter = search::filter_of(options);
        let count = m.partitions.len() as int;
        let n = search::probes(options.nprobe as int, count);
        let looked_at = search::first(ordering::by_distance(routes), n);
        let pids = search::nearest_partitions(routes, n);
        eligible_are_routes(route, m, filter, routes);
        sorting_means(routes, n);
        let at = passing_are_found(estimate, m, query, filter, looked_at, pids, found);
        let top = search::first(
            ordering::by_distance(found),
            search::refine_count(m, options, found.len() as int),
        );
        sorting_means(found, search::refine_count(m, options, found.len() as int));
        sorting_means(ranked, options.k as int);
        if options.refine && options.refine_k > 0 {
            remeasured_are_measured_again(exact, restore, m, options, top, ranked);
            let all = options.nprobe == 0 || options.nprobe >= count;
            assert(are_nearest(
                found,
                if all {
                    found.len() as int
                } else {
                    options.refine_k as int
                },
                top,
            ));
        }
        assert(search_means(
            route,
            estimate,
            exact,
            restore,
            m,
            query,
            options,
            filter,
            routes,
            looked_at,
            at,
            found,
            top,
            ranked,
            results,
        ));
    }
}

} // verus!
