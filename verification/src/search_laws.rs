//! What holds of every search.

use crate::ieee;
use crate::index_ivf_rq::IndexModel;
use crate::index_ivf_rq;
use crate::ordering;
use crate::payload;
use crate::rabitq;
use crate::search::{QueryCode, SearchOptions};
use crate::search;
use crate::sql;
use vstd::prelude::*;

verus! {

/// The entries that pass are entries, and they pass; every entry that passes is among them, and
/// distinct ids stay distinct.
proof fn passing_properties(
    m: IndexModel,
    entries: Seq<(u64, rabitq::Code)>,
    filter: Option<sql::Pred>,
    n: int,
)
    requires
        0 <= n <= entries.len(),
    ensures
        forall|j: int|
            0 <= j < search::passing(m, entries, filter, n).len() ==> {
                &&& search::passes(m, (#[trigger] search::passing(m, entries, filter, n)[j]).0, filter)
                &&& exists|i: int|
                    0 <= i < n && #[trigger] entries[i] == search::passing(m, entries, filter, n)[j]
            },
        forall|i: int|
            0 <= i < n && search::passes(m, (#[trigger] entries[i]).0, filter) ==> search::passing(
                m,
                entries,
                filter,
                n,
            ).contains(entries[i]),
        index_ivf_rq::distinct_ids(entries) ==> index_ivf_rq::distinct_ids(
            search::passing(m, entries, filter, n),
        ),
    decreases n,
{
    if n > 0 {
        passing_properties(m, entries, filter, n - 1);
        let before = search::passing(m, entries, filter, n - 1);
        let now = search::passing(m, entries, filter, n);
        let last = entries[n - 1];
        assert forall|j: int| 0 <= j < now.len() implies {
            &&& search::passes(m, (#[trigger] now[j]).0, filter)
            &&& exists|i: int| 0 <= i < n && #[trigger] entries[i] == now[j]
        } by {
            if j < before.len() {
                assert(now[j] == before[j]);
                let i = choose|i: int| 0 <= i < n - 1 && #[trigger] entries[i] == before[j];
                assert(entries[i] == now[j]);
            } else {
                assert(entries[n - 1] == now[j]);
            }
        }
        assert forall|i: int|
            0 <= i < n && search::passes(m, (#[trigger] entries[i]).0, filter) implies now.contains(
            entries[i],
        ) by {
            if i < n - 1 {
                assert(before.contains(entries[i]));
                let j = choose|j: int| 0 <= j < before.len() && before[j] == entries[i];
                assert(now[j] == entries[i]);
            } else {
                assert(now[now.len() - 1] == entries[i]);
            }
        }
        if index_ivf_rq::distinct_ids(entries) {
            assert forall|i: int, j: int| 0 <= i < j < now.len() implies (#[trigger] now[i]).0 != (
            #[trigger] now[j]).0 by {
                if j == before.len() {
                    assert(now[i] == before[i]);
                    let a = choose|a: int| 0 <= a < n - 1 && #[trigger] entries[a] == before[i];
                    assert(entries[a].0 != entries[n - 1].0);
                } else {
                    assert(before[i].0 != before[j].0);
                }
            }
        }
    }
}

/// The partitions in which an id of the candidates stands.
proof fn passing_in_properties(
    m: IndexModel,
    pids: Seq<usize>,
    filter: Option<sql::Pred>,
    n: int,
)
    requires
        0 <= n <= pids.len(),
        forall|i: int| 0 <= i < pids.len() ==> #[trigger] pids[i] < m.partitions.len(),
    ensures
        forall|j: int|
            0 <= j < search::passing_in(m, pids, filter, n).len() ==> {
                &&& search::passes(m, (#[trigger] search::passing_in(m, pids, filter, n)[j]).0, filter)
                &&& stands_in(m, pids, n, search::passing_in(m, pids, filter, n)[j])
            },
        forall|q: int, i: int|
            0 <= q < n && 0 <= i < m.partitions[pids[q] as int].len() && search::passes(
                m,
                (#[trigger] m.partitions[pids[q] as int][i]).0,
                filter,
            ) ==> search::passing_in(m, pids, filter, n).contains(m.partitions[pids[q] as int][i]),
        m.numbered() && pids.no_duplicates() ==> index_ivf_rq::distinct_ids(
            search::passing_in(m, pids, filter, n),
        ),
    decreases n,
{
    if n > 0 {
        passing_in_properties(m, pids, filter, n - 1);
        let p = pids[n - 1] as int;
        let entries = m.partitions[p];
        let before = search::passing_in(m, pids, filter, n - 1);
        let part = search::passing(m, entries, filter, entries.len() as int);
        let now = search::passing_in(m, pids, filter, n);
        passing_properties(m, entries, filter, entries.len() as int);
        assert(now == before + part);
        assert forall|j: int| 0 <= j < now.len() implies {
            &&& search::passes(m, (#[trigger] now[j]).0, filter)
            &&& stands_in(m, pids, n, now[j])
        } by {
            if j < before.len() {
                assert(now[j] == before[j]);
                assert(stands_in(m, pids, n - 1, before[j]));
                let (q, i) = choose|q: int, i: int|
                    0 <= q < n - 1 && 0 <= i < m.partitions[pids[q] as int].len()
                        && #[trigger] m.partitions[pids[q] as int][i] == before[j];
                assert(m.partitions[pids[q] as int][i] == now[j]);
            } else {
                assert(now[j] == part[j - before.len()]);
                let i = choose|i: int|
                    0 <= i < entries.len() && #[trigger] entries[i] == part[j - before.len()];
                assert(m.partitions[pids[n - 1] as int][i] == now[j]);
            }
        }
        assert forall|q: int, i: int|
            0 <= q < n && 0 <= i < m.partitions[pids[q] as int].len() && search::passes(
                m,
                (#[trigger] m.partitions[pids[q] as int][i]).0,
                filter,
            ) implies now.contains(m.partitions[pids[q] as int][i]) by {
            let e = m.partitions[pids[q] as int][i];
            if q < n - 1 {
                assert(before.contains(e));
                let j = choose|j: int| 0 <= j < before.len() && before[j] == e;
                assert(now[j] == e);
            } else {
                assert(entries[i] == e);
                assert(part.contains(e));
                let j = choose|j: int| 0 <= j < part.len() && part[j] == e;
                assert(now[before.len() + j] == e);
            }
        }
        if m.numbered() && pids.no_duplicates() {
            assert(index_ivf_rq::distinct_ids(m.partitions[p]));
            assert forall|i: int, j: int| 0 <= i < j < now.len() implies (#[trigger] now[i]).0 != (
            #[trigger] now[j]).0 by {
                if j < before.len() {
                    assert(now[i] == before[i] && now[j] == before[j]);
                } else if i >= before.len() {
                    assert(now[i] == part[i - before.len()] && now[j] == part[j - before.len()]);
                } else {
                    assert(now[i] == before[i] && now[j] == part[j - before.len()]);
                    assert(stands_in(m, pids, n - 1, before[i]));
                    let (q, a) = choose|q: int, a: int|
                        0 <= q < n - 1 && 0 <= a < m.partitions[pids[q] as int].len()
                            && #[trigger] m.partitions[pids[q] as int][a] == before[i];
                    let b = choose|b: int|
                        0 <= b < entries.len() && #[trigger] entries[b] == part[j - before.len()];
                    assert(m.partitions[pids[q] as int][a].0 == now[i].0);
                    assert(m.partitions[p][b].0 == now[j].0);
                    assert(pids[q] != pids[n - 1]);
                }
            }
        }
    }
}

/// An entry stands in one of the first `n` partitions of a list.
pub open spec fn stands_in(
    m: IndexModel,
    pids: Seq<usize>,
    n: int,
    entry: (u64, rabitq::Code),
) -> bool {
    exists|q: int, i: int|
        0 <= q < n && 0 <= i < m.partitions[pids[q] as int].len()
            && #[trigger] m.partitions[pids[q] as int][i] == entry
}

/// The partitions that the filter does not rule out: each once, and no other.
pub proof fn eligible_properties(m: IndexModel, filter: Option<sql::Pred>, n: int)
    requires
        0 <= n <= usize::MAX,
    ensures
        forall|j: int|
            0 <= j < search::eligible(m, filter, n).len() ==> 0 <= #[trigger] search::eligible(m, filter, n)[j] < n,
        forall|i: int, j: int|
            0 <= i < j < search::eligible(m, filter, n).len() ==> #[trigger] search::eligible(m, filter, n)[i]
                < #[trigger] search::eligible(m, filter, n)[j],
        forall|p: usize|
            p < n && #[trigger] search::may_pass(m, p as int, filter) ==> search::eligible(m, filter, n).contains(p),
    decreases n,
{
    if n > 0 {
        eligible_properties(m, filter, n - 1);
        let before = search::eligible(m, filter, n - 1);
        let now = search::eligible(m, filter, n);
        assert forall|p: usize| p < n && #[trigger] search::may_pass(
            m,
            p as int,
            filter,
        ) implies now.contains(p) by {
            if p == n - 1 {
                assert(now[now.len() - 1] == p);
            } else {
                assert(before.contains(p));
                let j = choose|j: int| 0 <= j < before.len() && before[j] == p;
                assert(now[j] == p);
            }
        }
    }
}

/// The partitions that are looked at exist and are looked at once; where all are asked for, none
/// that the filter does not rule out is missing.
proof fn selected_properties<F: Fn(&Vec<u32>, u32) -> u32>(
    route: F,
    m: IndexModel,
    filter: Option<sql::Pred>,
    routed: Seq<(usize, u32)>,
    n: int,
)
    requires
        0 <= n,
        m.partitions.len() <= usize::MAX,
        search::routed_by(route, m, search::eligible(m, filter, m.partitions.len() as int), routed),
    ensures
        forall|i: int|
            0 <= i < search::nearest_partitions(routed, n).len() ==> #[trigger] search::nearest_partitions(
                routed,
                n,
            )[i] < m.partitions.len(),
        search::nearest_partitions(routed, n).no_duplicates(),
        n >= m.partitions.len() ==> forall|p: usize|
            p < m.partitions.len() && #[trigger] search::may_pass(m, p as int, filter)
                ==> search::nearest_partitions(routed, n).contains(p),
{
    let count = m.partitions.len() as int;
    let all = search::eligible(m, filter, count);
    eligible_properties(m, filter, count);
    eligible_len(m, filter, count);
    ordering::by_distance_places(routed);
    let order = ordering::stable_order_of(ordering::distance_keys(routed));
    let sorted = ordering::by_distance(routed);
    let pids = search::nearest_partitions(routed, n);
    assert forall|i: int| 0 <= i < pids.len() implies pids[i] == all[order[i] as int] && 0
        <= order[i] < all.len() by {
        assert(pids[i] == sorted[i].0);
        assert(sorted[i] == routed[order[i] as int]);
    }
    assert forall|i: int, j: int|
        0 <= i < pids.len() && 0 <= j < pids.len() && i != j implies pids[i] != pids[j] by {
        assert(order[i] != order[j]);
    }
    if n >= count {
        assert forall|p: usize| p < count && #[trigger] search::may_pass(
            m,
            p as int,
            filter,
        ) implies pids.contains(p) by {
            assert(all.contains(p));
            let q = choose|q: int| 0 <= q < all.len() && all[q] == p;
            assert(order.contains(q as usize));
            let i = choose|i: int| 0 <= i < order.len() && order[i] == q as usize;
            assert(pids[i] == p);
        }
    }
}

proof fn eligible_len(m: IndexModel, filter: Option<sql::Pred>, n: int)
    requires
        0 <= n,
    ensures
        search::eligible(m, filter, n).len() <= n,
    decreases n,
{
    if n > 0 {
        eligible_len(m, filter, n - 1);
    }
}

/// Sorting and cutting off keeps items and distinct ids.
pub proof fn first_by_distance_properties(items: Seq<(u64, u32)>, n: int)
    requires
        0 <= n,
        items.len() <= usize::MAX,
    ensures
        search::first(ordering::by_distance(items), n).len() == if n < items.len() {
            n
        } else {
            items.len() as int
        },
        forall|i: int|
            0 <= i < search::first(ordering::by_distance(items), n).len() ==> items.contains(
                #[trigger] search::first(ordering::by_distance(items), n)[i],
            ),
        distinct_results(items) ==> distinct_results(search::first(ordering::by_distance(items), n)),
        forall|i: int, j: int|
            0 <= i < j < search::first(ordering::by_distance(items), n).len() ==> ieee::single_rank(
                (#[trigger] search::first(ordering::by_distance(items), n)[i]).1,
            ) <= ieee::single_rank((#[trigger] search::first(ordering::by_distance(items), n)[j]).1),
        forall|x: (u64, u32)| #[trigger]
            items.contains(x) ==> {
                ||| search::first(ordering::by_distance(items), n).contains(x)
                ||| n < items.len() && forall|j: int|
                    0 <= j < n ==> ieee::single_rank(
                        (#[trigger] search::first(ordering::by_distance(items), n)[j]).1,
                    ) <= ieee::single_rank(x.1)
            },
{
    ordering::by_distance_places(items);
    ordering::by_distance_is_sorted(items);
    let order = ordering::stable_order_of(ordering::distance_keys(items));
    let sorted = ordering::by_distance(items);
    let cut = search::first(sorted, n);
    assert forall|i: int| 0 <= i < cut.len() implies items.contains(#[trigger] cut[i]) by {
        assert(cut[i] == sorted[i]);
        assert(sorted[i] == items[order[i] as int]);
    }
    if distinct_results(items) {
        assert forall|i: int, j: int| 0 <= i < j < cut.len() implies (#[trigger] cut[i]).0 != (
        #[trigger] cut[j]).0 by {
            assert(sorted[i] == items[order[i] as int]);
            assert(sorted[j] == items[order[j] as int]);
            assert(order[i] != order[j]);
            if order[i] < order[j] {
                assert(items[order[i] as int].0 != items[order[j] as int].0);
            } else {
                assert(items[order[j] as int].0 != items[order[i] as int].0);
            }
        }
    }
    assert forall|i: int, j: int| 0 <= i < j < cut.len() implies ieee::single_rank(
        (#[trigger] cut[i]).1,
    ) <= ieee::single_rank((#[trigger] cut[j]).1) by {
        assert(cut[i] == sorted[i] && cut[j] == sorted[j]);
    }
    assert forall|x: (u64, u32)| #[trigger] items.contains(x) implies {
        ||| cut.contains(x)
        ||| n < items.len() && forall|j: int|
            0 <= j < n ==> ieee::single_rank((#[trigger] cut[j]).1) <= ieee::single_rank(x.1)
    } by {
        let q = choose|q: int| 0 <= q < items.len() && items[q] == x;
        assert(order.contains(q as usize));
        let i = choose|i: int| 0 <= i < order.len() && order[i] == q as usize;
        assert(sorted[i] == x);
        if i < cut.len() {
            assert(cut[i] == x);
        } else {
            assert forall|j: int| 0 <= j < n implies ieee::single_rank((#[trigger] cut[j]).1)
                <= ieee::single_rank(x.1) by {
                assert(cut[j] == sorted[j]);
                assert(ieee::single_rank(sorted[j].1) <= ieee::single_rank(sorted[i].1));
            }
        }
    }
}

/// No two results have the same id.
pub open spec fn distinct_results(results: Seq<(u64, u32)>) -> bool {
    forall|i: int, j: int|
        0 <= i < j < results.len() ==> (#[trigger] results[i]).0 != (#[trigger] results[j]).0
}

/// A result is a vector of the index that passes the filter.
pub open spec fn is_hit(m: IndexModel, filter: Option<sql::Pred>, id: u64) -> bool {
    id < m.raw.len() && search::passes(m, id, filter)
}

/// The candidates of a search are vectors of the index that pass the filter, each once.
pub proof fn candidates_are_hits<
    F: Fn(&Vec<u32>, u32) -> u32,
    E: Fn(u64, u32, u32) -> u32,
    X: Fn(&Vec<u32>) -> u32,
    R: Fn(u8, u32, u32) -> u32,
>(
    route: F,
    estimate: E,
    exact: X,
    restore: R,
    m: IndexModel,
    query: QueryCode,
    options: SearchOptions,
    routed: Seq<(usize, u32)>,
    candidates: Seq<(u64, u32)>,
    ranked: Seq<(u64, u32)>,
    results: Seq<(u64, u32)>,
)
    requires
        m.wf(),
        m.partitions.len() <= usize::MAX,
        search::searched(
            route,
            estimate,
            exact,
            restore,
            m,
            query,
            options,
            routed,
            candidates,
            ranked,
            results,
        ),
    ensures
        forall|i: int|
            0 <= i < ranked.len() ==> is_hit(m, search::filter_of(options), (#[trigger] ranked[i]).0),
        m.numbered() ==> distinct_results(ranked),
{
    let filter = search::filter_of(options);
    let count = m.partitions.len() as int;
    let n = search::probes(options.nprobe as int, count);
    let pids = search::nearest_partitions(routed, n);
    selected_properties(route, m, filter, routed, n);
    passing_in_properties(m, pids, filter, pids.len() as int);
    let entries = search::passing_in(m, pids, filter, pids.len() as int);
    assert forall|i: int| 0 <= i < candidates.len() implies is_hit(
        m,
        filter,
        (#[trigger] candidates[i]).0,
    ) by {
        assert(search::estimate_of(estimate, query, m.dim, entries[i], candidates[i]));
        assert(stands_in(m, pids, pids.len() as int, entries[i]));
        let (q, a) = choose|q: int, a: int|
            0 <= q < pids.len() && 0 <= a < m.partitions[pids[q] as int].len()
                && #[trigger] m.partitions[pids[q] as int][a] == entries[i];
        assert(m.entry_wf(pids[q] as int, a));
    }
    if m.numbered() {
        assert forall|i: int, j: int| 0 <= i < j < candidates.len() implies (
        #[trigger] candidates[i]).0 != (#[trigger] candidates[j]).0 by {
            assert(search::estimate_of(estimate, query, m.dim, entries[i], candidates[i]));
            assert(search::estimate_of(estimate, query, m.dim, entries[j], candidates[j]));
            assert(entries[i].0 != entries[j].0);
        }
    }
    if options.refine && options.refine_k > 0 {
        let head = search::first(
            ordering::by_distance(candidates),
            search::refine_count(m, options, candidates.len() as int),
        );
        first_by_distance_properties(candidates, search::refine_count(m, options, candidates.len() as int));
        let mode = search::remeasure_mode(m, options);
        assert forall|i: int| 0 <= i < ranked.len() implies is_hit(
            m,
            filter,
            (#[trigger] ranked[i]).0,
        ) by {
            assert(search::remeasured_one(mode, exact, restore, m, head[i], ranked[i]));
            assert(candidates.contains(head[i]));
        }
        if m.numbered() {
            assert forall|i: int, j: int| 0 <= i < j < ranked.len() implies (
            #[trigger] ranked[i]).0 != (#[trigger] ranked[j]).0 by {
                assert(search::remeasured_one(mode, exact, restore, m, head[i], ranked[i]));
                assert(search::remeasured_one(mode, exact, restore, m, head[j], ranked[j]));
                assert(head[i].0 != head[j].0);
            }
        }
    }
}

/// A search gives at most `k` results, from the nearest to the farthest, all of them vectors of
/// the index that pass the filter, and no vector twice.
pub proof fn search_results_are_sound<
    F: Fn(&Vec<u32>, u32) -> u32,
    E: Fn(u64, u32, u32) -> u32,
    X: Fn(&Vec<u32>) -> u32,
    R: Fn(u8, u32, u32) -> u32,
>(
    route: F,
    estimate: E,
    exact: X,
    restore: R,
    m: IndexModel,
    query: QueryCode,
    options: SearchOptions,
    results: Seq<(u64, u32)>,
)
    requires
        m.wf(),
        m.partitions.len() <= usize::MAX,
        search::search_outcome(route, estimate, exact, restore, m, query, options, results),
    ensures
        results.len() <= options.k,
        forall|i: int, j: int|
            0 <= i < j < results.len() ==> ieee::single_rank((#[trigger] results[i]).1)
                <= ieee::single_rank((#[trigger] results[j]).1),
        forall|i: int|
            0 <= i < results.len() ==> is_hit(m, search::filter_of(options), (#[trigger] results[i]).0),
        m.numbered() ==> distinct_results(results),
{
    if m.raw.len() > 0 && options.k > 0 {
        let (routed, candidates, ranked) = choose|
            routed: Seq<(usize, u32)>,
            candidates: Seq<(u64, u32)>,
            ranked: Seq<(u64, u32)>,
        | #[trigger]
            search::searched(
                route,
                estimate,
                exact,
                restore,
                m,
                query,
                options,
                routed,
                candidates,
                ranked,
                results,
            );
        candidates_are_hits(
            route,
            estimate,
            exact,
            restore,
            m,
            query,
            options,
            routed,
            candidates,
            ranked,
            results,
        );
        first_by_distance_properties(ranked, options.k as int);
        assert forall|i: int| 0 <= i < results.len() implies is_hit(
            m,
            search::filter_of(options),
            (#[trigger] results[i]).0,
        ) by {
            assert(ranked.contains(results[i]));
            let j = choose|j: int| 0 <= j < ranked.len() && ranked[j] == results[i];
            assert(is_hit(m, search::filter_of(options), ranked[j].0));
        }
    }
}

/// What is given for a query is what holds of the results of a search.
pub proof fn query_results_are_sound<
    R: Fn(&Vec<u32>, &Vec<u32>) -> Vec<u32>,
    C: Fn(&Vec<u32>, u32) -> (u32, u32),
    N: Fn(&Vec<u32>) -> u32,
    S: Fn(u32, u8) -> u32,
    L: Fn(u32, u32, u8) -> u8,
    F: Fn(&Vec<u32>, u32) -> u32,
    E: Fn(u64, u32, u32) -> u32,
    X: Fn(&Vec<u32>) -> u32,
    Z: Fn(u8, u32, u32) -> u32,
    FM: Fn(&Vec<u32>) -> F,
    EM: Fn(&QueryCode) -> E,
    XM: Fn(&Vec<u32>) -> X,
>(
    rotate: R,
    corrections: C,
    norm: N,
    step: S,
    level: L,
    routing: FM,
    estimating: EM,
    measuring: XM,
    restore: Z,
    m: IndexModel,
    query: Vec<u32>,
    options: SearchOptions,
    results: Seq<(u64, u32)>,
)
    requires
        m.wf(),
        m.partitions.len() <= usize::MAX,
        search::query_outcome(
            rotate,
            corrections,
            norm,
            step,
            level,
            routing,
            estimating,
            measuring,
            restore,
            m,
            query,
            options,
            results,
        ),
    ensures
        results.len() <= options.k,
        forall|i: int, j: int|
            0 <= i < j < results.len() ==> ieee::single_rank((#[trigger] results[i]).1)
                <= ieee::single_rank((#[trigger] results[j]).1),
        forall|i: int|
            0 <= i < results.len() ==> is_hit(m, search::filter_of(options), (#[trigger] results[i]).0),
        m.numbered() ==> distinct_results(results),
{
    if m.raw.len() > 0 && options.k > 0 {
        let (code, route, estimate, exact) = choose|
            code: QueryCode,
            route: F,
            estimate: E,
            exact: X,
        | #[trigger]
            search::prepared(
                rotate,
                corrections,
                norm,
                step,
                level,
                routing,
                estimating,
                measuring,
                m,
                query,
                options.query_bits,
                code,
                route,
                estimate,
                exact,
            ) && search::search_outcome(route, estimate, exact, restore, m, code, options, results);
        search_results_are_sound(route, estimate, exact, restore, m, code, options, results);
    }
}

/// The distance `d` of a vector was measured, and it is either that of a result or no less than
/// those of all `k` results.
pub open spec fn accounted_for<X: Fn(&Vec<u32>) -> u32>(
    exact: X,
    m: IndexModel,
    k: int,
    results: Seq<(u64, u32)>,
    id: u64,
    d: u32,
) -> bool {
    &&& call_ensures(exact, (&m.raw[id as int],), d)
    &&& results.contains((id, d)) || (results.len() == k && forall|j: int|
        0 <= j < results.len() ==> ieee::single_rank((#[trigger] results[j]).1)
            <= ieee::single_rank(d))
}

/// A vector that passes the filter is ranked, with its distance, in a search of all partitions that
/// measures by the vectors.
pub proof fn hit_is_ranked<
    F: Fn(&Vec<u32>, u32) -> u32,
    E: Fn(u64, u32, u32) -> u32,
    X: Fn(&Vec<u32>) -> u32,
    R: Fn(u8, u32, u32) -> u32,
>(
    route: F,
    estimate: E,
    exact: X,
    restore: R,
    m: IndexModel,
    query: QueryCode,
    options: SearchOptions,
    routed: Seq<(usize, u32)>,
    candidates: Seq<(u64, u32)>,
    ranked: Seq<(u64, u32)>,
    results: Seq<(u64, u32)>,
    id: u64,
) -> (d: u32)
    requires
        m.wf(),
        m.numbered(),
        m.partitions.len() <= usize::MAX,
        search::searched(
            route,
            estimate,
            exact,
            restore,
            m,
            query,
            options,
            routed,
            candidates,
            ranked,
            results,
        ),
        options.nprobe == 0 || options.nprobe >= m.partitions.len(),
        options.refine && options.refine_k > 0,
        !options.sq8_refine || m.sq8_dirty,
        is_hit(m, search::filter_of(options), id),
    ensures
        ranked.contains((id, d)),
        call_ensures(exact, (&m.raw[id as int],), d),
{
    let filter = search::filter_of(options);
    let count = m.partitions.len() as int;
    let n = search::probes(options.nprobe as int, count);
    let pids = search::nearest_partitions(routed, n);
    selected_properties(route, m, filter, routed, n);
    passing_in_properties(m, pids, filter, pids.len() as int);
    // The partition of the vector is not ruled out, so it is looked at.
    let p = m.id_to_partition[id as int];
    assert(m.has_entry(p as int, id as int));
    let i = choose|i: int|
        0 <= i < m.partitions[p as int].len() && (#[trigger] m.partitions[p as int][i]).0 == id;
    assert(m.entry_wf(p as int, i));
    assert(p < m.partitions.len());
    assert(search::may_pass(m, p as int, filter)) by {
        if let Some(pred) = filter {
            if !pred.may_match(m.stats[p as int]) {
                sql::skipping_is_safe(pred, m.stats[p as int], m.fields(id)->0);
            }
        }
    }
    assert(pids.contains(p));
    let q = choose|q: int| 0 <= q < pids.len() && pids[q] == p;
    let entry = m.partitions[pids[q] as int][i];
    assert(entry.0 == id);
    let entries = search::passing_in(m, pids, filter, pids.len() as int);
    assert(entries.contains(entry));
    let e = choose|e: int| 0 <= e < entries.len() && entries[e] == entry;
    assert(search::estimate_of(estimate, query, m.dim, entries[e], candidates[e]));
    // All candidates are measured again.
    let len = candidates.len() as int;
    assert(search::refine_count(m, options, len) == len);
    first_by_distance_properties(candidates, len);
    let head = search::first(ordering::by_distance(candidates), len);
    assert(candidates.contains(candidates[e]));
    assert(head.contains(candidates[e]));
    let h = choose|h: int| 0 <= h < head.len() && head[h] == candidates[e];
    assert(search::remeasured_one(search::remeasure_mode(m, options), exact, restore, m, head[h], ranked[h]));
    let d = ranked[h].1;
    assert(ranked[h] == (id, d));
    d
}

/// A search of all partitions that measures by the vectors misses no neighbour: every vector that
/// passes the filter is among the results or no nearer than any of them.
pub proof fn full_search_misses_nothing<
    F: Fn(&Vec<u32>, u32) -> u32,
    E: Fn(u64, u32, u32) -> u32,
    X: Fn(&Vec<u32>) -> u32,
    R: Fn(u8, u32, u32) -> u32,
>(
    route: F,
    estimate: E,
    exact: X,
    restore: R,
    m: IndexModel,
    query: QueryCode,
    options: SearchOptions,
    results: Seq<(u64, u32)>,
    id: u64,
)
    requires
        m.wf(),
        m.numbered(),
        m.partitions.len() <= usize::MAX,
        search::search_outcome(route, estimate, exact, restore, m, query, options, results),
        options.k > 0,
        options.nprobe == 0 || options.nprobe >= m.partitions.len(),
        options.refine && options.refine_k > 0,
        !options.sq8_refine || m.sq8_dirty,
        is_hit(m, search::filter_of(options), id),
    ensures
        exists|d: u32| #[trigger] accounted_for(exact, m, options.k as int, results, id, d),
{
    let (routed, candidates, ranked) = choose|
        routed: Seq<(usize, u32)>,
        candidates: Seq<(u64, u32)>,
        ranked: Seq<(u64, u32)>,
    | #[trigger]
        search::searched(
            route,
            estimate,
            exact,
            restore,
            m,
            query,
            options,
            routed,
            candidates,
            ranked,
            results,
        );
    let d = hit_is_ranked(
        route,
        estimate,
        exact,
        restore,
        m,
        query,
        options,
        routed,
        candidates,
        ranked,
        results,
        id,
    );
    first_by_distance_properties(ranked, options.k as int);
    assert(ranked.contains((id, d)));
    assert(accounted_for(exact, m, options.k as int, results, id, d));
}

/// Comparing codes in batches changes nothing: what is found with it is what is found without.
pub proof fn batches_change_nothing<
    F: Fn(&Vec<u32>, u32) -> u32,
    E: Fn(u64, u32, u32) -> u32,
    X: Fn(&Vec<u32>) -> u32,
    R: Fn(u8, u32, u32) -> u32,
>(
    route: F,
    estimate: E,
    exact: X,
    restore: R,
    m: IndexModel,
    query: QueryCode,
    options: SearchOptions,
    other: SearchOptions,
    results: Seq<(u64, u32)>,
)
    requires
        other == (SearchOptions { fastscan: other.fastscan, ..options }),
        search::search_outcome(route, estimate, exact, restore, m, query, options, results),
    ensures
        search::search_outcome(route, estimate, exact, restore, m, query, other, results),
{
    if m.raw.len() > 0 && options.k > 0 {
        let (routed, candidates, ranked) = choose|
            routed: Seq<(usize, u32)>,
            candidates: Seq<(u64, u32)>,
            ranked: Seq<(u64, u32)>,
        | #[trigger]
            search::searched(
                route,
                estimate,
                exact,
                restore,
                m,
                query,
                options,
                routed,
                candidates,
                ranked,
                results,
            );
        assert(search::contenders(exact, restore, m, other, candidates, ranked));
        assert(search::searched(
            route,
            estimate,
            exact,
            restore,
            m,
            query,
            other,
            routed,
            candidates,
            ranked,
            results,
        ));
    }
}

/// A vector that was added is there to be found, and those that were there before are as they were.
pub proof fn added_vector_can_be_found(
    m: IndexModel,
    pid: usize,
    vector: Vec<u32>,
    code: rabitq::Code,
    payload: index_ivf_rq::Payload,
    filter: Option<sql::Pred>,
)
    requires
        m.numbered(),
        m.next_id < u64::MAX,
    ensures
        ({
            let after = m.added(pid, vector, code, payload);
            &&& after.raw[m.next_id as int] == vector
            &&& is_hit(after, None, m.next_id)
            &&& is_hit(after, filter, m.next_id) <==> match filter {
                None => true,
                Some(p) => p.holds(payload::payload_fields(payload)),
            }
            &&& forall|id: u64|
                id < m.raw.len() ==> #[trigger] is_hit(after, filter, id) == is_hit(m, filter, id)
                    && after.raw[id as int] == m.raw[id as int]
        }),
{
    let after = m.added(pid, vector, code, payload);
    assert(after.payloads[m.next_id as int] == payload);
    assert forall|id: u64| id < m.raw.len() implies #[trigger] is_hit(after, filter, id) == is_hit(
        m,
        filter,
        id,
    ) && after.raw[id as int] == m.raw[id as int] by {
        assert(after.payloads[id as int] == m.payloads[id as int]);
    }
}

} // verus!
