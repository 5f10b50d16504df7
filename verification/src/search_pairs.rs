//! What holds of two searches of one index, and of a search and the distances of all vectors.
//!
//! The arithmetic of a search is handed to it as functions. Where two searches are compared, these
//! functions have to give one result for the same numbers.

use crate::ieee;
use crate::index_ivf_rq::IndexModel;
use crate::index_ivf_rq;
use crate::ordering;
use crate::rabitq;
use crate::search::{QueryCode, Remeasure, SearchOptions};
use crate::search;
use crate::search_laws;
use crate::sql;
use crate::sql_parser;
use vstd::prelude::*;
use vstd::seq_lib::*;
use vstd::set_lib::*;

verus! {

/// A routing function gives one distance for the same numbers.
pub open spec fn one_route<F: Fn(&Vec<u32>, u32) -> u32>(route: F) -> bool {
    forall|a: Vec<u32>, b: Vec<u32>, n: u32, d: u32, e: u32|
        #![trigger call_ensures(route, (&a, n), d), call_ensures(route, (&b, n), e)]
        a@ == b@ && call_ensures(route, (&a, n), d) && call_ensures(route, (&b, n), e) ==> d == e
}

/// An estimating function gives one distance for the same numbers.
pub open spec fn one_estimate<E: Fn(u64, u32, u32) -> u32>(estimate: E) -> bool {
    forall|h: u64, a: u32, b: u32, d: u32, e: u32|
        #![trigger call_ensures(estimate, (h, a, b), d), call_ensures(estimate, (h, a, b), e)]
        call_ensures(estimate, (h, a, b), d) && call_ensures(estimate, (h, a, b), e) ==> d == e
}

/// A function of vectors gives one number for the same numbers.
pub open spec fn one_measure<X: Fn(&Vec<u32>) -> u32>(exact: X) -> bool {
    forall|a: Vec<u32>, b: Vec<u32>, d: u32, e: u32|
        #![trigger call_ensures(exact, (&a,), d), call_ensures(exact, (&b,), e)]
        a@ == b@ && call_ensures(exact, (&a,), d) && call_ensures(exact, (&b,), e) ==> d == e
}

/// A restoring function gives one number for the same byte and range.
pub open spec fn one_restore<R: Fn(u8, u32, u32) -> u32>(restore: R) -> bool {
    forall|c: u8, lo: u32, hi: u32, d: u32, e: u32|
        #![trigger call_ensures(restore, (c, lo, hi), d), call_ensures(restore, (c, lo, hi), e)]
        call_ensures(restore, (c, lo, hi), d) && call_ensures(restore, (c, lo, hi), e) ==> d == e
}

/// A rotating function gives one vector for the same numbers.
pub open spec fn one_rotation<R: Fn(&Vec<u32>, &Vec<u32>) -> Vec<u32>>(rotate: R) -> bool {
    forall|a: Vec<u32>, b: Vec<u32>, v: Vec<u32>, w: Vec<u32>, x: Vec<u32>, y: Vec<u32>|
        #![trigger call_ensures(rotate, (&a, &v), x), call_ensures(rotate, (&b, &w), y)]
        a@ == b@ && v@ == w@ && call_ensures(rotate, (&a, &v), x) && call_ensures(
            rotate,
            (&b, &w),
            y,
        ) ==> x@ == y@
}

/// All functions of a search give one result for the same numbers.
pub open spec fn one_result<
    F: Fn(&Vec<u32>, u32) -> u32,
    E: Fn(u64, u32, u32) -> u32,
    X: Fn(&Vec<u32>) -> u32,
    R: Fn(u8, u32, u32) -> u32,
>(route: F, estimate: E, exact: X, restore: R) -> bool {
    one_route(route) && one_estimate(estimate) && one_measure(exact) && one_restore(restore)
}

/// Two searches ask for the same but for how many results they want: the same partitions, the same
/// filter or none, and the same measuring. Whether codes are compared in batches does not count.
pub open spec fn same_but_for_k(a: SearchOptions, b: SearchOptions) -> bool {
    &&& a.nprobe == b.nprobe
    &&& a.refine == b.refine
    &&& a.refine_k == b.refine_k
    &&& a.sq8_refine == b.sq8_refine
    &&& search::filter_of(a) == search::filter_of(b)
}

proof fn same_routes<F: Fn(&Vec<u32>, u32) -> u32>(
    route: F,
    m: IndexModel,
    pids: Seq<usize>,
    x: Seq<(usize, u32)>,
    y: Seq<(usize, u32)>,
)
    requires
        one_route(route),
        search::routed_by(route, m, pids, x),
        search::routed_by(route, m, pids, y),
    ensures
        x == y,
{
    assert forall|i: int| 0 <= i < x.len() implies x[i] == y[i] by {
        let (c, n) = (m.rotated_centroids[pids[i] as int], m.norms[pids[i] as int]);
        assert(x[i].0 == pids[i] && y[i].0 == pids[i]);
        assert(call_ensures(route, (&c, n), x[i].1) && call_ensures(route, (&c, n), y[i].1));
    }
    assert(x =~= y);
}

/// Entries have one list of candidates.
pub proof fn same_estimates<E: Fn(u64, u32, u32) -> u32>(
    estimate: E,
    query: QueryCode,
    dim: int,
    entries: Seq<(u64, rabitq::Code)>,
    x: Seq<(u64, u32)>,
    y: Seq<(u64, u32)>,
)
    requires
        one_estimate(estimate),
        search::estimated(estimate, query, dim, entries, x),
        search::estimated(estimate, query, dim, entries, y),
    ensures
        x == y,
{
    assert forall|i: int| 0 <= i < x.len() implies x[i] == y[i] by {
        let e = entries[i];
        let h = query.reading(dim, e.1.bits) as u64;
        assert(search::estimate_of(estimate, query, dim, e, x[i]));
        assert(search::estimate_of(estimate, query, dim, e, y[i]));
        assert(call_ensures(estimate, (h, e.1.alpha, e.1.beta), x[i].1));
        assert(call_ensures(estimate, (h, e.1.alpha, e.1.beta), y[i].1));
    }
    assert(x =~= y);
}

proof fn same_sq8_distance<X: Fn(&Vec<u32>) -> u32, R: Fn(u8, u32, u32) -> u32>(
    exact: X,
    restore: R,
    m: IndexModel,
    id: u64,
    d: u32,
    e: u32,
)
    requires
        one_measure(exact),
        one_restore(restore),
        index_ivf_rq::sq8_has_distance(restore, exact, m, id, d),
        index_ivf_rq::sq8_has_distance(restore, exact, m, id, e),
    ensures
        d == e,
{
    let (p, v) = choose|pos: int, vector: Vec<u32>| #[trigger]
        index_ivf_rq::sq8_reads(restore, exact, m, id, pos, vector, d);
    let (q, w) = choose|pos: int, vector: Vec<u32>| #[trigger]
        index_ivf_rq::sq8_reads(restore, exact, m, id, pos, vector, e);
    let pid = m.id_to_partition[id as int] as int;
    let entries = m.partitions[pid];
    assert(entries[p].0 == id && entries[q].0 == id);
    assert(p == q);
    let data = m.sq8[pid];
    let code = data.codes[p];
    assert forall|i: int| 0 <= i < v@.len() implies v@[i] == w@[i] by {
        assert(call_ensures(restore, (code[i], data.min[i], data.max[i]), v@[i]));
        assert(call_ensures(restore, (code[i], data.min[i], data.max[i]), w@[i]));
    }
    assert(v@ =~= w@);
    assert(call_ensures(exact, (&v,), d) && call_ensures(exact, (&w,), e));
}

proof fn same_remeasures<X: Fn(&Vec<u32>) -> u32, R: Fn(u8, u32, u32) -> u32>(
    mode: Remeasure,
    exact: X,
    restore: R,
    m: IndexModel,
    before: Seq<(u64, u32)>,
    x: Seq<(u64, u32)>,
    y: Seq<(u64, u32)>,
)
    requires
        one_measure(exact),
        one_restore(restore),
        search::remeasured(mode, exact, restore, m, before, x),
        search::remeasured(mode, exact, restore, m, before, y),
    ensures
        x == y,
{
    assert forall|i: int| 0 <= i < x.len() implies x[i] == y[i] by {
        let b = before[i];
        assert(search::remeasured_one(mode, exact, restore, m, b, x[i]));
        assert(search::remeasured_one(mode, exact, restore, m, b, y[i]));
        match mode {
            Remeasure::Keep => {},
            Remeasure::Raw => {
                if b.0 < m.raw.len() {
                    let v = m.raw[b.0 as int];
                    assert(call_ensures(exact, (&v,), x[i].1) && call_ensures(exact, (&v,), y[i].1));
                }
            },
            Remeasure::Sq8 => {
                let none = index_ivf_rq::sq8_measured(restore, exact, m, b.0, None);
                if index_ivf_rq::sq8_has_distance(restore, exact, m, b.0, x[i].1) {
                    let (p, v) = choose|pos: int, vector: Vec<u32>| #[trigger]
                        index_ivf_rq::sq8_reads(restore, exact, m, b.0, pos, vector, x[i].1);
                    assert(index_ivf_rq::sq8_place(m, b.0, p));
                    assert(!none);
                    same_sq8_distance(exact, restore, m, b.0, x[i].1, y[i].1);
                } else {
                    assert(none);
                    if index_ivf_rq::sq8_has_distance(restore, exact, m, b.0, y[i].1) {
                        let (p, v) = choose|pos: int, vector: Vec<u32>| #[trigger]
                            index_ivf_rq::sq8_reads(restore, exact, m, b.0, pos, vector, y[i].1);
                        assert(index_ivf_rq::sq8_place(m, b.0, p));
                    }
                }
            },
        }
    }
    assert(x =~= y);
}

/// Of two searches that ask for the same, the one that wants fewer results gives the first of those
/// that the other one gives.
pub proof fn fewer_results_are_the_first<
    F: Fn(&Vec<u32>, u32) -> u32,
    E: Fn(u64, u32, u32) -> u32,
    X: Fn(&Vec<u32>) -> u32,
    R: Fn(u8, u32, u32) -> u32,
>(
    route: F,
    estimate: E,
    exact: X,
    restore: R,
    m: IndexModel,
    query: QueryCode,
    fewer: SearchOptions,
    more: SearchOptions,
    x: Seq<(u64, u32)>,
    y: Seq<(u64, u32)>,
)
    requires
        one_result(route, estimate, exact, restore),
        same_but_for_k(fewer, more),
        fewer.k <= more.k,
        search::search_outcome(route, estimate, exact, restore, m, query, fewer, x),
        search::search_outcome(route, estimate, exact, restore, m, query, more, y),
    ensures
        x == search::first(y, fewer.k as int),
{
    if m.raw.len() == 0 || fewer.k == 0 {
        assert(x =~= search::first(y, fewer.k as int));
    } else {
        let (r1, c1, k1) = choose|
            routed: Seq<(usize, u32)>,
            candidates: Seq<(u64, u32)>,
            ranked: Seq<(u64, u32)>,
        | #[trigger]
            search::searched(
                route,
                estimate,
                exact,
                restore,
                m,
                query,
                fewer,
                routed,
                candidates,
                ranked,
                x,
            );
        let (r2, c2, k2) = choose|
            routed: Seq<(usize, u32)>,
            candidates: Seq<(u64, u32)>,
            ranked: Seq<(u64, u32)>,
        | #[trigger]
            search::searched(
                route,
                estimate,
                exact,
                restore,
                m,
                query,
                more,
                routed,
                candidates,
                ranked,
                y,
            );
        let filter = search::filter_of(fewer);
        let count = m.partitions.len() as int;
        same_routes(route, m, search::eligible(m, filter, count), r1, r2);
        let pids = search::nearest_partitions(r1, search::probes(fewer.nprobe as int, count));
        let entries = search::passing_in(m, pids, filter, pids.len() as int);
        same_estimates(estimate, query, m.dim, entries, c1, c2);
        if fewer.refine && fewer.refine_k > 0 {
            same_remeasures(
                search::remeasure_mode(m, fewer),
                exact,
                restore,
                m,
                search::first(
                    ordering::by_distance(c1),
                    search::refine_count(m, fewer, c1.len() as int),
                ),
                k1,
                k2,
            );
        }
        assert(k1 == k2);
        let sorted = ordering::by_distance(k1);
        assert(search::first(sorted, fewer.k as int) =~= search::first(
            search::first(sorted, more.k as int),
            fewer.k as int,
        ));
    }
}

/// Two searches that ask for the same give the same.
pub proof fn searches_agree<
    F: Fn(&Vec<u32>, u32) -> u32,
    E: Fn(u64, u32, u32) -> u32,
    X: Fn(&Vec<u32>) -> u32,
    R: Fn(u8, u32, u32) -> u32,
>(
    route: F,
    estimate: E,
    exact: X,
    restore: R,
    m: IndexModel,
    query: QueryCode,
    a: SearchOptions,
    b: SearchOptions,
    x: Seq<(u64, u32)>,
    y: Seq<(u64, u32)>,
)
    requires
        one_result(route, estimate, exact, restore),
        same_but_for_k(a, b),
        a.k == b.k,
        search::search_outcome(route, estimate, exact, restore, m, query, a, x),
        search::search_outcome(route, estimate, exact, restore, m, query, b, y),
    ensures
        x == y,
{
    fewer_results_are_the_first(route, estimate, exact, restore, m, query, a, b, x, y);
    fewer_results_are_the_first(route, estimate, exact, restore, m, query, b, a, y, x);
    assert(x =~= y);
}

/// A search that compares codes in batches gives what one gives that compares them one by one.
pub proof fn batched_search_agrees<
    F: Fn(&Vec<u32>, u32) -> u32,
    E: Fn(u64, u32, u32) -> u32,
    X: Fn(&Vec<u32>) -> u32,
    R: Fn(u8, u32, u32) -> u32,
>(
    route: F,
    estimate: E,
    exact: X,
    restore: R,
    m: IndexModel,
    query: QueryCode,
    batched: SearchOptions,
    single: SearchOptions,
    x: Seq<(u64, u32)>,
    y: Seq<(u64, u32)>,
)
    requires
        one_result(route, estimate, exact, restore),
        single == (SearchOptions { fastscan: false, ..batched }),
        search::search_outcome(route, estimate, exact, restore, m, query, batched, x),
        search::search_outcome(route, estimate, exact, restore, m, query, single, y),
    ensures
        x == y,
{
    searches_agree(route, estimate, exact, restore, m, query, batched, single, x, y);
}

/// A filter that cannot be parsed filters nothing: the search gives what it gives without a filter.
pub proof fn unparsable_filter_is_none<
    F: Fn(&Vec<u32>, u32) -> u32,
    E: Fn(u64, u32, u32) -> u32,
    X: Fn(&Vec<u32>) -> u32,
    R: Fn(u8, u32, u32) -> u32,
>(
    route: F,
    estimate: E,
    exact: X,
    restore: R,
    m: IndexModel,
    query: QueryCode,
    filtered: SearchOptions,
    unfiltered: SearchOptions,
    x: Seq<(u64, u32)>,
    y: Seq<(u64, u32)>,
)
    requires
        one_result(route, estimate, exact, restore),
        filtered.sql_filter matches Some(s) && sql_parser::parsed_text(s@) is Err,
        unfiltered == (SearchOptions { sql_filter: None, ..filtered }),
        search::search_outcome(route, estimate, exact, restore, m, query, filtered, x),
        search::search_outcome(route, estimate, exact, restore, m, query, unfiltered, y),
    ensures
        x == y,
{
    searches_agree(route, estimate, exact, restore, m, query, filtered, unfiltered, x, y);
}

/// Those of the first `n` measured vectors that pass the filter, in order.
pub open spec fn hits_among(
    m: IndexModel,
    filter: Option<sql::Pred>,
    measured: Seq<(u64, u32)>,
    n: int,
) -> Seq<(u64, u32)>
    decreases n,
{
    if n <= 0 {
        Seq::empty()
    } else if search::passes(m, measured[n - 1].0, filter) {
        hits_among(m, filter, measured, n - 1).push(measured[n - 1])
    } else {
        hits_among(m, filter, measured, n - 1)
    }
}

/// All measured vectors that pass the filter, by id.
pub open spec fn hits_of(m: IndexModel, filter: Option<sql::Pred>, measured: Seq<(u64, u32)>) -> Seq<
    (u64, u32),
> {
    hits_among(m, filter, measured, measured.len() as int)
}

proof fn hits_properties(
    m: IndexModel,
    filter: Option<sql::Pred>,
    measured: Seq<(u64, u32)>,
    n: int,
)
    requires
        0 <= n <= measured.len(),
        forall|i: int| 0 <= i < measured.len() ==> (#[trigger] measured[i]).0 == i,
    ensures
        hits_among(m, filter, measured, n).len() <= n,
        forall|j: int|
            0 <= j < hits_among(m, filter, measured, n).len() ==> {
                let x = #[trigger] hits_among(m, filter, measured, n)[j];
                &&& x.0 < n
                &&& x == measured[x.0 as int]
                &&& search::passes(m, x.0, filter)
            },
        forall|i: int|
            0 <= i < n && search::passes(m, (#[trigger] measured[i]).0, filter) ==> hits_among(
                m,
                filter,
                measured,
                n,
            ).contains(measured[i]),
        hits_among(m, filter, measured, n).no_duplicates(),
    decreases n,
{
    if n > 0 {
        hits_properties(m, filter, measured, n - 1);
        let before = hits_among(m, filter, measured, n - 1);
        let now = hits_among(m, filter, measured, n);
        assert(measured[n - 1].0 == n - 1);
        assert forall|i: int|
            0 <= i < n && search::passes(
                m,
                (#[trigger] measured[i]).0,
                filter,
            ) implies now.contains(measured[i]) by {
            if i < n - 1 {
                assert(before.contains(measured[i]));
                let j = choose|j: int| 0 <= j < before.len() && before[j] == measured[i];
                assert(now[j] == measured[i]);
            } else {
                assert(now[now.len() - 1] == measured[i]);
            }
        }
    }
}

/// Without a filter all vectors are hits.
pub proof fn all_are_hits(m: IndexModel, measured: Seq<(u64, u32)>)
    ensures
        hits_of(m, None, measured) == measured,
{
    all_among_are_hits(m, measured, measured.len() as int);
    assert(measured.take(measured.len() as int) =~= measured);
}

proof fn all_among_are_hits(m: IndexModel, measured: Seq<(u64, u32)>, n: int)
    requires
        0 <= n <= measured.len(),
    ensures
        hits_among(m, None, measured, n) == measured.take(n),
    decreases n,
{
    if n > 0 {
        all_among_are_hits(m, measured, n - 1);
        assert(measured.take(n) =~= measured.take(n - 1).push(measured[n - 1]));
    } else {
        assert(hits_among(m, None, measured, n) =~= measured.take(n));
    }
}

/// The ranks of the distances do not fall.
spec fn rising(items: Seq<(u64, u32)>) -> bool {
    forall|i: int, j: int|
        0 <= i < j < items.len() ==> ieee::single_rank((#[trigger] items[i]).1)
            <= ieee::single_rank((#[trigger] items[j]).1)
}

/// Of two lists of the same items, each once and with rising distances, none has a smaller distance
/// anywhere.
proof fn no_smaller_distance(a: Seq<(u64, u32)>, b: Seq<(u64, u32)>, i: int)
    requires
        rising(a),
        rising(b),
        a.no_duplicates(),
        a.to_set().subset_of(b.to_set()),
        0 <= i < a.len(),
        i < b.len(),
    ensures
        ieee::single_rank(a[i].1) >= ieee::single_rank(b[i].1),
{
    if ieee::single_rank(a[i].1) < ieee::single_rank(b[i].1) {
        let (front, less) = (a.take(i + 1), b.take(i));
        assert forall|x: (u64, u32)| front.to_set().contains(x) implies less.to_set().contains(x) by {
            let p = choose|p: int| 0 <= p < front.len() && front[p] == x;
            assert(a[p] == x);
            assert(ieee::single_rank(a[p].1) <= ieee::single_rank(a[i].1));
            assert(a.to_set().contains(x));
            assert(b.to_set().contains(x));
            let q = choose|q: int| 0 <= q < b.len() && b[q] == x;
            if q >= i {
                assert(ieee::single_rank(b[i].1) <= ieee::single_rank(b[q].1));
            }
            assert(less[q] == x);
        }
        assert(front.no_duplicates());
        front.unique_seq_to_set();
        less.lemma_cardinality_of_set();
        seq_to_set_is_finite(less);
        lemma_len_subset(front.to_set(), less.to_set());
    }
}

/// Two lists have the same length and the same distances, place by place.
pub open spec fn same_distances(a: Seq<(u64, u32)>, b: Seq<(u64, u32)>) -> bool {
    &&& a.len() == b.len()
    &&& forall|i: int|
        0 <= i < a.len() ==> ieee::single_rank((#[trigger] a[i]).1) == ieee::single_rank(b[i].1)
}

/// Lists of the same items, each once, have the same distances once they are sorted.
proof fn same_items_same_distances(a: Seq<(u64, u32)>, b: Seq<(u64, u32)>)
    requires
        a.len() <= usize::MAX,
        b.len() <= usize::MAX,
        a.no_duplicates(),
        b.no_duplicates(),
        a.to_set() == b.to_set(),
    ensures
        a.len() == b.len(),
        same_distances(ordering::by_distance(a), ordering::by_distance(b)),
{
    a.unique_seq_to_set();
    b.unique_seq_to_set();
    sorted_items(a);
    sorted_items(b);
    let (x, y) = (ordering::by_distance(a), ordering::by_distance(b));
    assert forall|i: int| 0 <= i < x.len() implies ieee::single_rank((#[trigger] x[i]).1)
        == ieee::single_rank(y[i].1) by {
        no_smaller_distance(x, y, i);
        no_smaller_distance(y, x, i);
    }
}

proof fn sorted_items(a: Seq<(u64, u32)>)
    requires
        a.len() <= usize::MAX,
        a.no_duplicates(),
    ensures
        ordering::by_distance(a).len() == a.len(),
        ordering::by_distance(a).no_duplicates(),
        ordering::by_distance(a).to_set() == a.to_set(),
        rising(ordering::by_distance(a)),
{
    ordering::by_distance_places(a);
    ordering::by_distance_is_sorted(a);
    let order = ordering::stable_order_of(ordering::distance_keys(a));
    let x = ordering::by_distance(a);
    assert forall|v: (u64, u32)| x.to_set().contains(v) <==> a.to_set().contains(v) by {
        if x.to_set().contains(v) {
            let i = choose|i: int| 0 <= i < x.len() && x[i] == v;
            assert(a[order[i] as int] == v);
        }
        if a.to_set().contains(v) {
            let q = choose|q: int| 0 <= q < a.len() && a[q] == v;
            assert(order.contains(q as usize));
            let i = choose|i: int| 0 <= i < order.len() && order[i] == q as usize;
            assert(x[i] == v);
        }
    }
    assert(x.to_set() =~= a.to_set());
    assert forall|i: int, j: int| 0 <= i < x.len() && 0 <= j < x.len() && i != j implies x[i]
        != x[j] by {
        assert(x[i] == a[order[i] as int] && x[j] == a[order[j] as int]);
        assert(order[i] != order[j]);
    }
    assert forall|i: int, j: int| 0 <= i < j < x.len() implies ieee::single_rank(
        (#[trigger] x[i]).1,
    ) <= ieee::single_rank((#[trigger] x[j]).1) by {}
}

/// A search of all partitions that measures by the vectors is exact.
///
/// It gives as many results as there are vectors that pass the filter, but no more than `k`; each
/// result has the distance of its vector; place by place the distances are those of the nearest
/// vectors that pass; and a vector that passes and is not among the results is no nearer than any
/// of them.
pub proof fn full_search_is_exact<
    F: Fn(&Vec<u32>, u32) -> u32,
    E: Fn(u64, u32, u32) -> u32,
    X: Fn(&Vec<u32>) -> u32,
    R: Fn(u8, u32, u32) -> u32,
>(
    route: F,
    estimate: E,
    exact: X,
    restore: R,
    m: IndexModel,
    query: QueryCode,
    options: SearchOptions,
    results: Seq<(u64, u32)>,
    measured: Seq<(u64, u32)>,
)
    requires
        m.wf(),
        m.numbered(),
        m.partitions.len() <= usize::MAX,
        m.raw.len() <= usize::MAX,
        one_measure(exact),
        search::measured_all(exact, m, measured),
        search::search_outcome(route, estimate, exact, restore, m, query, options, results),
        options.nprobe == 0 || options.nprobe >= m.partitions.len(),
        options.refine && options.refine_k > 0,
        !options.sq8_refine || m.sq8_dirty,
    ensures
        ({
            let hits = hits_of(m, search::filter_of(options), measured);
            &&& results.len() == if options.k < hits.len() {
                options.k as int
            } else {
                hits.len() as int
            }
            &&& same_distances(
                results,
                search::first(ordering::by_distance(hits), options.k as int),
            )
            &&& forall|i: int| 0 <= i < results.len() ==> hits.contains(#[trigger] results[i])
            &&& forall|x: (u64, u32)| #[trigger]
                hits.contains(x) ==> results.contains(x) || forall|j: int|
                    0 <= j < results.len() ==> ieee::single_rank((#[trigger] results[j]).1)
                        <= ieee::single_rank(x.1)
        }),
{
    let filter = search::filter_of(options);
    let hits = hits_of(m, filter, measured);
    let k = options.k as int;
    hits_properties(m, filter, measured, measured.len() as int);
    if m.raw.len() == 0 || k == 0 {
        assert(search::first(ordering::by_distance(hits), k).len() == 0) by {
            ordering::by_distance_places(hits);
        }
        assert(results.len() == 0);
    } else {
        let (routed, candidates, ranked) = choose|
            routed: Seq<(usize, u32)>,
            candidates: Seq<(u64, u32)>,
            ranked: Seq<(u64, u32)>,
        | #[trigger]
            search::searched(
                route,
                estimate,
                exact,
                restore,
                m,
                query,
                options,
                routed,
                candidates,
                ranked,
                results,
            );
        ranked_are_hits(
            route,
            estimate,
            exact,
            restore,
            m,
            query,
            options,
            routed,
            candidates,
            ranked,
            results,
            measured,
        );
        same_items_same_distances(ranked, hits);
        search_laws::first_by_distance_properties(ranked, k);
        assert(same_distances(results, search::first(ordering::by_distance(hits), k)));
        assert forall|i: int| 0 <= i < results.len() implies hits.contains(#[trigger] results[i]) by {
            assert(ranked.contains(results[i]));
            assert(ranked.to_set().contains(results[i]));
            assert(hits.to_set().contains(results[i]));
        }
        assert forall|x: (u64, u32)| #[trigger] hits.contains(x) implies results.contains(x)
            || forall|j: int|
            0 <= j < results.len() ==> ieee::single_rank((#[trigger] results[j]).1)
                <= ieee::single_rank(x.1) by {
            assert(hits.to_set().contains(x));
            assert(ranked.to_set().contains(x));
            assert(ranked.contains(x));
        }
    }
}

/// What is ranked in a full search are exactly the vectors that pass the filter, each once, with
/// their distances.
proof fn ranked_are_hits<
    F: Fn(&Vec<u32>, u32) -> u32,
    E: Fn(u64, u32, u32) -> u32,
    X: Fn(&Vec<u32>) -> u32,
    R: Fn(u8, u32, u32) -> u32,
>(
    route: F,
    estimate: E,
    exact: X,
    restore: R,
    m: IndexModel,
    query: QueryCode,
    options: SearchOptions,
    routed: Seq<(usize, u32)>,
    candidates: Seq<(u64, u32)>,
    ranked: Seq<(u64, u32)>,
    results: Seq<(u64, u32)>,
    measured: Seq<(u64, u32)>,
)
    requires
        m.wf(),
        m.numbered(),
        m.partitions.len() <= usize::MAX,
        one_measure(exact),
        search::measured_all(exact, m, measured),
        m.raw.len() > 0,
        options.k > 0,
        search::searched(
            route,
            estimate,
            exact,
            restore,
            m,
            query,
            options,
            routed,
            candidates,
            ranked,
            results,
        ),
        options.nprobe == 0 || options.nprobe >= m.partitions.len(),
        options.refine && options.refine_k > 0,
        !options.sq8_refine || m.sq8_dirty,
    ensures
        ranked.no_duplicates(),
        ranked.to_set() == hits_of(m, search::filter_of(options), measured).to_set(),
{
    let filter = search::filter_of(options);
    let hits = hits_of(m, filter, measured);
    hits_properties(m, filter, measured, measured.len() as int);
    search_laws::candidates_are_hits(
        route,
        estimate,
        exact,
        restore,
        m,
        query,
        options,
        routed,
        candidates,
        ranked,
        results,
    );
    assert forall|i: int, j: int|
        0 <= i < ranked.len() && 0 <= j < ranked.len() && i != j implies ranked[i] != ranked[j] by {
        if i < j {
            assert(ranked[i].0 != ranked[j].0);
        } else {
            assert(ranked[j].0 != ranked[i].0);
        }
    }
    let len = candidates.len() as int;
    let mode = search::remeasure_mode(m, options);
    let head = search::first(ordering::by_distance(candidates), len);
    assert(search::refine_count(m, options, len) == len);
    assert forall|x: (u64, u32)| ranked.to_set().contains(x) <==> hits.to_set().contains(x) by {
        if ranked.to_set().contains(x) {
            let i = choose|i: int| 0 <= i < ranked.len() && ranked[i] == x;
            assert(search_laws::is_hit(m, filter, ranked[i].0));
            assert(search::remeasured_one(mode, exact, restore, m, head[i], ranked[i]));
            let v = m.raw[x.0 as int];
            let y = measured[x.0 as int];
            assert(call_ensures(exact, (&v,), x.1) && call_ensures(exact, (&v,), y.1));
            assert(x == y);
            assert(hits.contains(y));
        }
        if hits.to_set().contains(x) {
            let j = choose|j: int| 0 <= j < hits.len() && hits[j] == x;
            let d = search_laws::hit_is_ranked(
                route,
                estimate,
                exact,
                restore,
                m,
                query,
                options,
                routed,
                candidates,
                ranked,
                results,
                x.0,
            );
            let v = m.raw[x.0 as int];
            assert(x == measured[x.0 as int]);
            assert(call_ensures(exact, (&v,), d) && call_ensures(exact, (&v,), x.1));
            assert(ranked.contains(x));
        }
    }
    assert(ranked.to_set() =~= hits.to_set());
}

/// No two vectors of an index are equally far from the query.
pub open spec fn all_apart<X: Fn(&Vec<u32>) -> u32>(exact: X, m: IndexModel) -> bool {
    forall|i: int, j: int, d: u32, e: u32|
        #![trigger call_ensures(exact, (&m.raw[i],), d), call_ensures(exact, (&m.raw[j],), e)]
        0 <= i < m.raw.len() && 0 <= j < m.raw.len() && i != j && call_ensures(
            exact,
            (&m.raw[i],),
            d,
        ) && call_ensures(exact, (&m.raw[j],), e) ==> ieee::single_rank(d) != ieee::single_rank(e)
}

/// A search of all partitions without a filter gives the distances that measuring all vectors
/// gives, and as many: each result with the distance of its vector. Among equally distant vectors
/// the two may name different ones; where there are none, they give the same.
pub proof fn full_search_agrees_with_flat_search<
    F: Fn(&Vec<u32>, u32) -> u32,
    E: Fn(u64, u32, u32) -> u32,
    X: Fn(&Vec<u32>) -> u32,
    R: Fn(u8, u32, u32) -> u32,
>(
    route: F,
    estimate: E,
    exact: X,
    restore: R,
    m: IndexModel,
    query: QueryCode,
    options: SearchOptions,
    results: Seq<(u64, u32)>,
    flat: Seq<(u64, u32)>,
)
    requires
        m.wf(),
        m.numbered(),
        m.partitions.len() <= usize::MAX,
        m.raw.len() <= usize::MAX,
        one_measure(exact),
        search::flat_outcome(exact, m, options.k as int, flat),
        search::search_outcome(route, estimate, exact, restore, m, query, options, results),
        search::filter_of(options) is None,
        options.nprobe == 0 || options.nprobe >= m.partitions.len(),
        options.refine && options.refine_k > 0,
        !options.sq8_refine || m.sq8_dirty,
    ensures
        same_distances(results, flat),
        results.len() == if options.k < m.raw.len() {
            options.k as int
        } else {
            m.raw.len() as int
        },
        forall|i: int|
            0 <= i < results.len() ==> (#[trigger] results[i]).0 < m.raw.len() && call_ensures(
                exact,
                (&m.raw[results[i].0 as int],),
                results[i].1,
            ),
        all_apart(exact, m) ==> results == flat,
{
    let measured = choose|measured: Seq<(u64, u32)>| #[trigger]
        search::measured_all(exact, m, measured) && flat == search::first(
            ordering::by_distance(measured),
            options.k as int,
        );
    all_are_hits(m, measured);
    full_search_is_exact(
        route,
        estimate,
        exact,
        restore,
        m,
        query,
        options,
        results,
        measured,
    );
    assert forall|i: int| 0 <= i < results.len() implies (#[trigger] results[i]).0 < m.raw.len()
        && results[i] == measured[results[i].0 as int] by {
        assert(measured.contains(results[i]));
        let j = choose|j: int| 0 <= j < measured.len() && measured[j] == results[i];
        assert(measured[j].0 == j);
    }
    if all_apart(exact, m) {
        search_laws::first_by_distance_properties(measured, options.k as int);
        assert forall|i: int| 0 <= i < results.len() implies results[i] == flat[i] by {
            assert(measured.contains(flat[i]));
            let j = choose|j: int| 0 <= j < measured.len() && measured[j] == flat[i];
            let h = results[i].0 as int;
            assert(measured[j].0 == j && measured[h].0 == h);
            assert(call_ensures(exact, (&m.raw[j],), flat[i].1));
            assert(call_ensures(exact, (&m.raw[h],), results[i].1));
            assert(ieee::single_rank(results[i].1) == ieee::single_rank(flat[i].1));
        }
        assert(results =~= flat);
    }
}

} // verus!
