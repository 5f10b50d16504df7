//! What holds of searches of two indexes that hold the same, as one does that was saved and loaded.

use crate::index_ivf_rq::IndexModel;
use crate::index_ivf_rq;
use crate::ordering;
use crate::payload;
use crate::rabitq;
use crate::search::{QueryCode, Remeasure, SearchOptions};
use crate::search;
use crate::search_laws;
use crate::search_pairs;
use crate::sql;
use crate::storage;
use crate::storage_laws;
use vstd::prelude::*;

verus! {

/// Vectors with the same numbers, place by place.
pub open spec fn same_numbers(a: Seq<Vec<u32>>, b: Seq<Vec<u32>>) -> bool {
    &&& a.len() == b.len()
    &&& forall|i: int| 0 <= i < a.len() ==> (#[trigger] a[i])@ == b[i]@
}

/// Two indexes hold the same, as a search sees them: the same entries in the same partitions, and
/// the same numbers, fields and aggregates.
pub open spec fn alike(a: IndexModel, b: IndexModel) -> bool {
    &&& a.dim == b.dim
    &&& a.partitions == b.partitions
    &&& same_numbers(a.rotated_centroids, b.rotated_centroids)
    &&& a.norms == b.norms
    &&& same_numbers(a.raw, b.raw)
    &&& a.stats == b.stats
    &&& payload::same_fields(a.payloads, b.payloads)
}

proof fn same_eligible(a: IndexModel, b: IndexModel, filter: Option<sql::Pred>, n: int)
    requires
        a.stats == b.stats,
    ensures
        search::eligible(a, filter, n) == search::eligible(b, filter, n),
    decreases n,
{
    if n > 0 {
        same_eligible(a, b, filter, n - 1);
    }
}

proof fn same_passing(
    a: IndexModel,
    b: IndexModel,
    entries: Seq<(u64, rabitq::Code)>,
    filter: Option<sql::Pred>,
    n: int,
)
    requires
        payload::same_fields(a.payloads, b.payloads),
    ensures
        search::passing(a, entries, filter, n) == search::passing(b, entries, filter, n),
    decreases n,
{
    if n > 0 {
        same_passing(a, b, entries, filter, n - 1);
        let id = entries[n - 1].0;
        if id < a.payloads.len() {
            assert(payload::payload_fields(a.payloads[id as int]) == payload::payload_fields(
                b.payloads[id as int],
            ));
        }
        assert(a.fields(id) == b.fields(id));
    }
}

proof fn same_passing_in(
    a: IndexModel,
    b: IndexModel,
    pids: Seq<usize>,
    filter: Option<sql::Pred>,
    n: int,
)
    requires
        a.partitions == b.partitions,
        payload::same_fields(a.payloads, b.payloads),
    ensures
        search::passing_in(a, pids, filter, n) == search::passing_in(b, pids, filter, n),
    decreases n,
{
    if n > 0 {
        same_passing_in(a, b, pids, filter, n - 1);
        let entries = a.partitions[pids[n - 1] as int];
        same_passing(a, b, entries, filter, entries.len() as int);
    }
}

/// Searches of two indexes that hold the same give the same, where they measure by the vectors or
/// not at all.
pub proof fn alike_indexes_agree<
    F: Fn(&Vec<u32>, u32) -> u32,
    E: Fn(u64, u32, u32) -> u32,
    X: Fn(&Vec<u32>) -> u32,
    R: Fn(u8, u32, u32) -> u32,
>(
    route: F,
    estimate: E,
    exact: X,
    restore: R,
    a: IndexModel,
    b: IndexModel,
    query: QueryCode,
    options: SearchOptions,
    x: Seq<(u64, u32)>,
    y: Seq<(u64, u32)>,
)
    requires
        a.wf(),
        b.wf(),
        alike(a, b),
        a.partitions.len() <= usize::MAX,
        search_pairs::one_result(route, estimate, exact, restore),
        !options.sq8_refine,
        search::search_outcome(route, estimate, exact, restore, a, query, options, x),
        search::search_outcome(route, estimate, exact, restore, b, query, options, y),
    ensures
        x == y,
{
    if a.raw.len() == 0 || options.k == 0 {
        assert(x =~= y);
    } else {
        let (r1, c1, k1) = choose|
            routed: Seq<(usize, u32)>,
            candidates: Seq<(u64, u32)>,
            ranked: Seq<(u64, u32)>,
        | #[trigger]
            search::searched(
                route,
                estimate,
                exact,
                restore,
                a,
                query,
                options,
                routed,
                candidates,
                ranked,
                x,
            );
        let (r2, c2, k2) = choose|
            routed: Seq<(usize, u32)>,
            candidates: Seq<(u64, u32)>,
            ranked: Seq<(u64, u32)>,
        | #[trigger]
            search::searched(
                route,
                estimate,
                exact,
                restore,
                b,
                query,
                options,
                routed,
                candidates,
                ranked,
                y,
            );
        let filter = search::filter_of(options);
        let count = a.partitions.len() as int;
        let all = search::eligible(a, filter, count);
        same_eligible(a, b, filter, count);
        search_laws::eligible_properties(a, filter, count);
        assert forall|i: int| 0 <= i < r1.len() implies r1[i] == r2[i] by {
            let p = all[i] as int;
            let (v, w) = (a.rotated_centroids[p], b.rotated_centroids[p]);
            assert(r1[i].0 == all[i] && r2[i].0 == all[i]);
            assert(v@ == w@);
            assert(call_ensures(route, (&v, a.norms[p]), r1[i].1));
            assert(call_ensures(route, (&w, a.norms[p]), r2[i].1));
        }
        assert(r1 =~= r2);
        let pids = search::nearest_partitions(r1, search::probes(options.nprobe as int, count));
        same_passing_in(a, b, pids, filter, pids.len() as int);
        let entries = search::passing_in(a, pids, filter, pids.len() as int);
        search_pairs::same_estimates(estimate, query, a.dim, entries, c1, c2);
        if options.refine && options.refine_k > 0 {
            let best = search::first(
                ordering::by_distance(c1),
                search::refine_count(a, options, c1.len() as int),
            );
            assert(search::remeasured(Remeasure::Raw, exact, restore, a, best, k1));
            assert(search::remeasured(Remeasure::Raw, exact, restore, b, best, k2));
            assert forall|i: int| 0 <= i < best.len() implies k1[i] == k2[i] by {
                assert(search::remeasured_one(Remeasure::Raw, exact, restore, a, best[i], k1[i]));
                assert(search::remeasured_one(Remeasure::Raw, exact, restore, b, best[i], k2[i]));
                let id = best[i].0;
                if id < a.raw.len() {
                    let (v, w) = (a.raw[id as int], b.raw[id as int]);
                    assert(v@ == w@);
                    assert(call_ensures(exact, (&v,), k1[i].1));
                    assert(call_ensures(exact, (&w,), k2[i].1));
                }
            }
            assert(k1 =~= k2);
        }
        assert(k1 == k2);
    }
}

/// An index holds the same after it was saved and loaded, where its rotated centroids were made in
/// the way that loading makes them and its payloads are given back by JSON text.
pub proof fn loaded_is_alike<
    T: Fn(&Vec<u32>, &Vec<u32>) -> Vec<u32>,
    N: Fn(&Vec<u32>) -> u32,
    Q: Fn(u32, u32, u32) -> u8,
>(rotate: T, norm: N, quantize: Q, b: Seq<u8>, m: IndexModel, back: IndexModel)
    requires
        m.wf(),
        payload::plain(m.payloads),
        search_pairs::one_rotation(rotate),
        search_pairs::one_measure(norm),
        index_ivf_rq::all_rotated(rotate, m.rotation, m.centroids, m.rotated_centroids),
        index_ivf_rq::all_measured(norm, m.rotated_centroids, m.norms),
        storage::loaded(rotate, norm, quantize, b, back),
        storage_laws::has_parts_of(storage::parts_in(back), m),
    ensures
        alike(m, back),
{
    let parts = storage::parts_in(back);
    assert(parts.partitions == m.partitions && parts.rotation == m.rotation@);
    same_views(m.raw, back.raw);
    same_views(m.centroids, back.centroids);
    assert forall|p: int| 0 <= p < m.rotated_centroids.len() implies (
    #[trigger] m.rotated_centroids[p])@ == back.rotated_centroids[p]@ && m.norms[p]
        == back.norms[p] by {
        let (v, w) = (m.centroids[p], back.centroids[p]);
        let (x, y) = (m.rotated_centroids[p], back.rotated_centroids[p]);
        assert(v@ == w@);
        assert(call_ensures(rotate, (&m.rotation, &v), x));
        assert(call_ensures(rotate, (&back.rotation, &w), y));
        assert(call_ensures(norm, (&x,), m.norms[p]));
        assert(call_ensures(norm, (&y,), back.norms[p]));
    }
    assert(m.norms =~= back.norms);
    assert(payload::same_fields(m.payloads, back.payloads)) by {
        assert forall|i: int| 0 <= i < m.payloads.len() implies #[trigger] payload::payload_fields(
            m.payloads[i],
        ) == payload::payload_fields(back.payloads[i]) by {
            assert(payload::payload_fields(back.payloads[i]) == payload::payload_fields(
                m.payloads[i],
            ));
        }
    }
    assert forall|p: int| 0 <= p < m.stats.len() implies m.stats[p] == back.stats[p] by {
        let entries = m.partitions[p];
        assert forall|i: int| 0 <= i < entries.len() implies index_ivf_rq::same_payload(
            (#[trigger] entries[i]).0,
            m.payloads,
            back.payloads,
        ) by {
            let id = entries[i].0;
            if id < m.payloads.len() {
                assert(payload::payload_fields(m.payloads[id as int]) == payload::payload_fields(
                    back.payloads[id as int],
                ));
            }
        }
        index_ivf_rq::stats_of_same(
            entries,
            m.payloads,
            entries,
            back.payloads,
            entries.len() as int,
        );
        assert(back.stats[p] == index_ivf_rq::stats_of(
            back.partitions[p],
            back.payloads,
            back.partitions[p].len() as int,
        ));
    }
    assert(m.stats =~= back.stats);
}

proof fn same_views(a: Seq<Vec<u32>>, b: Seq<Vec<u32>>)
    requires
        storage::row_views(a) == storage::row_views(b),
    ensures
        same_numbers(a, b),
{
    assert(storage::row_views(a).len() == a.len());
    assert(storage::row_views(b).len() == b.len());
    assert forall|i: int| 0 <= i < a.len() implies (#[trigger] a[i])@ == b[i]@ by {
        assert(storage::row_views(a)[i] == storage::row_views(b)[i]);
    }
}

/// An index that was saved and loaded gives to a search what it gave before.
pub proof fn loaded_search_agrees<
    T: Fn(&Vec<u32>, &Vec<u32>) -> Vec<u32>,
    N: Fn(&Vec<u32>) -> u32,
    Q: Fn(u32, u32, u32) -> u8,
    F: Fn(&Vec<u32>, u32) -> u32,
    E: Fn(u64, u32, u32) -> u32,
    X: Fn(&Vec<u32>) -> u32,
    R: Fn(u8, u32, u32) -> u32,
>(
    rotate: T,
    norm: N,
    quantize: Q,
    route: F,
    estimate: E,
    exact: X,
    restore: R,
    b: Seq<u8>,
    m: IndexModel,
    back: IndexModel,
    query: QueryCode,
    options: SearchOptions,
    x: Seq<(u64, u32)>,
    y: Seq<(u64, u32)>,
)
    requires
        m.wf(),
        m.partitions.len() <= usize::MAX,
        payload::plain(m.payloads),
        search_pairs::one_rotation(rotate),
        search_pairs::one_measure(norm),
        search_pairs::one_result(route, estimate, exact, restore),
        index_ivf_rq::all_rotated(rotate, m.rotation, m.centroids, m.rotated_centroids),
        index_ivf_rq::all_measured(norm, m.rotated_centroids, m.norms),
        storage::loaded(rotate, norm, quantize, b, back),
        storage_laws::has_parts_of(storage::parts_in(back), m),
        !options.sq8_refine,
        search::search_outcome(route, estimate, exact, restore, m, query, options, x),
        search::search_outcome(route, estimate, exact, restore, back, query, options, y),
    ensures
        x == y,
{
    loaded_is_alike(rotate, norm, quantize, b, m, back);
    alike_indexes_agree(route, estimate, exact, restore, m, back, query, options, x, y);
}

} // verus!
