//! What a query is turned into, what a search without filters and refinement does, and what an index
//! is put together of.

use crate::bit_laws;
use crate::code_laws;
use crate::ieee;
use crate::index_ivf_rq::{IndexModel, Payload};
use crate::index_ivf_rq;
use crate::index_laws;
use crate::number_laws;
use crate::ordering;
use crate::rabitq::{QueryQuantizedCode, RabitqConfig};
use crate::rabitq;
use crate::ranking_laws;
use crate::search::{QueryCode, SearchOptions};
use crate::search;
use vstd::prelude::*;

verus! {

/// Vectors of a dimension have by default query codes of four bits, and the constant 1.9 for their
/// corrections.
pub proof fn settings_by_default(dim: usize)
    ensures
        rabitq::default_config(dim).dim == dim,
        rabitq::default_config(dim).num_bits == 4,
        rabitq::default_config(dim).epsilon_0 == 0x3FF3_3333,
{
}

/// Every vector is measured, and the nearest are the results of a flat search.
pub proof fn flat_searches_mean<X: Fn(&Vec<u32>) -> u32>(
    exact: X,
    m: IndexModel,
    k: int,
    results: Seq<(u64, u32)>,
)
    requires
        m.raw.len() <= usize::MAX,
        0 <= k,
        search::flat_outcome(exact, m, k, results),
    ensures
        exists|measured: Seq<(u64, u32)>|
            {
                &&& measured.len() == m.raw.len()
                &&& forall|i: int|
                    0 <= i < measured.len() ==> (#[trigger] measured[i]).0 == i && call_ensures(
                        exact,
                        (&m.raw[i],),
                        measured[i].1,
                    )
                &&& #[trigger] ranking_laws::are_nearest(measured, k, results)
            },
{
    let measured = choose|measured: Seq<(u64, u32)>| #[trigger]
        search::measured_all(exact, m, measured) && results == search::first(
            ordering::by_distance(measured),
            k,
        );
    ranking_laws::sorting_means(measured, k);
    assert(ranking_laws::are_nearest(measured, k, results));
}

/// A search by estimates alone: the nearest partitions are looked at, as many as are asked for and all
/// where none or more than there are, and the nearest of their entries by estimate are the results.
pub proof fn estimate_searches_mean<F: Fn(&Vec<u32>, u32) -> u32, E: Fn(u64, u32, u32) -> u32>(
    route: F,
    estimate: E,
    m: IndexModel,
    query: QueryCode,
    k: int,
    nprobe: int,
    routed: Seq<(usize, u32)>,
    candidates: Seq<(u64, u32)>,
    results: Seq<(u64, u32)>,
)
    requires
        m.wf(),
        m.partitions.len() <= usize::MAX,
        candidates.len() <= usize::MAX,
        0 <= k,
        0 <= nprobe,
        search::estimate_outcome(route, estimate, m, query, k, nprobe, routed, candidates, results),
    ensures
        ranking_laws::are_routes(route, m, None, routed),
        ranking_laws::are_nearest(candidates, k, results),
        exists|looked_at: Seq<(usize, u32)>, at: Seq<(int, int)>|
            {
                &&& ranking_laws::are_nearest(
                    routed,
                    if nprobe == 0 || nprobe > m.partitions.len() {
                        m.partitions.len() as int
                    } else {
                        nprobe
                    },
                    looked_at,
                )
                &&& #[trigger] ranking_laws::are_found(
                    estimate,
                    m,
                    query,
                    None,
                    looked_at,
                    at,
                    candidates,
                )
            },
{
    let n = search::probes(nprobe, m.partitions.len() as int);
    let looked_at = search::first(ordering::by_distance(routed), n);
    let pids = search::nearest_partitions(routed, n);
    assert forall|p: int|
        0 <= p < m.partitions.len() && #[trigger] ranking_laws::may_fit(m, None, p) implies ranking_laws::has_route(
        routed, p) by {
        assert(routed[p].0 == p);
    }
    ranking_laws::sorting_means(routed, n);
    ranking_laws::sorting_means(candidates, k);
    let at = ranking_laws::passing_are_found(
        estimate,
        m,
        query,
        None,
        looked_at,
        pids,
        candidates,
    );
}

/// The sum of the magnitudes of the first `n` dimensions.
pub open spec fn sum_of_magnitudes(quantized: Seq<u8>, bq: u8, n: int) -> int
    decreases n,
{
    if n <= 0 {
        0
    } else {
        sum_of_magnitudes(quantized, bq, n - 1) + bit_laws::magnitude_of(quantized, bq, n - 1)
    }
}

/// The largest number that some bits hold.
pub open spec fn largest_of_bits(bq: u8) -> int {
    if bq == 1 {
        1
    } else if bq == 2 {
        3
    } else if bq == 4 {
        15
    } else {
        255
    }
}

/// `top` is the magnitude of the number farthest from zero, or zero where there is none.
pub open spec fn is_top(values: Seq<u32>, top: u32) -> bool {
    &&& forall|d: int|
        0 <= d < values.len() && !ieee::single_nan(#[trigger] values[d]) ==> values[d] % 0x8000_0000
            <= top
    &&& top > 0 ==> exists|d: int|
        0 <= d < values.len() && !ieee::single_nan(#[trigger] values[d]) && values[d] % 0x8000_0000
            == top
}

/// A code is the quantized code of a rotated query: the signs of its numbers, one bit each, its norm,
/// the step between two levels, for each dimension its level between zero and the number farthest from
/// zero, in `bq` bits, and the sum of the levels.
pub open spec fn is_quantized<
    N: Fn(&Vec<u32>) -> u32,
    S: Fn(u32, u8) -> u32,
    L: Fn(u32, u32, u8) -> u8,
>(
    norm: N,
    step: S,
    level: L,
    rotated: Vec<u32>,
    bq: u8,
    top: u32,
    levels: Seq<u8>,
    code: QueryQuantizedCode,
) -> bool {
    let dim = rotated@.len() as int;
    let highest = largest_of_bits(bq) as u8;
    &&& code.bq == bq
    &&& 8 * code.bits@.len() == dim
    &&& forall|d: int|
        0 <= d < dim ==> (bit_laws::code_bit(code.bits@, d) == 1 <==> !ieee::single_nan(
            #[trigger] rotated@[d],
        ) && number_laws::single_value(rotated@[d]) >= 0)
    &&& call_ensures(norm, (&rotated,), code.alpha)
    &&& is_top(rotated@, top)
    &&& levels.len() == dim
    &&& top > 0 ==> call_ensures(step, (top, highest), code.scale)
    &&& top > 0 ==> forall|d: int|
        0 <= d < dim ==> call_ensures(level, (rotated@[d], top, highest), #[trigger] levels[d])
    &&& top == 0 ==> code.scale == 0x3F80_0000
    &&& top == 0 ==> forall|d: int| 0 <= d < dim ==> #[trigger] levels[d] == 0
    &&& 8 * code.quantized@.len() == bq * dim
    &&& forall|d: int|
        0 <= d < dim ==> #[trigger] bit_laws::magnitude_of(code.quantized@, bq, d) == if levels[d]
            > highest {
            highest
        } else {
            levels[d]
        }
    &&& code.total_sum == sum_of_magnitudes(code.quantized@, bq, dim)
}

proof fn magnitudes_are_summed(quantized: Seq<u8>, bq: u8, dim: int, n: int)
    requires
        rabitq::cuts_byte(bq),
        0 <= n <= dim,
        dim % 64 == 0,
        quantized.len() == dim / rabitq::per_byte(bq),
    ensures
        code_laws::packed_sum(quantized, bq, n) == sum_of_magnitudes(quantized, bq, n),
    decreases n,
{
    if n > 0 {
        magnitudes_are_summed(quantized, bq, dim, n - 1);
        bit_laws::magnitudes_are_bits(quantized, bq, n - 1);
    }
}

proof fn dimensions_have_bits(bq: u8, dim: int, d: int)
    requires
        rabitq::cuts_byte(bq),
        dim % 64 == 0,
        d <= dim,
    ensures
        8 * (dim / rabitq::per_byte(bq)) == bq * dim,
        d * bq <= bq * dim,
        d < dim ==> d * bq < bq * dim,
{
    let b = bq as int;
    if bq == 1 {
        assert(b * dim == dim && d * b == d) by (nonlinear_arith)
            requires
                b == 1,
        ;
    } else if bq == 2 {
        assert(b * dim == 2 * dim && d * b == 2 * d) by (nonlinear_arith)
            requires
                b == 2,
        ;
    } else if bq == 4 {
        assert(b * dim == 4 * dim && d * b == 4 * d) by (nonlinear_arith)
            requires
                b == 4,
        ;
    } else {
        assert(b * dim == 8 * dim && d * b == 8 * d) by (nonlinear_arith)
            requires
                b == 8,
        ;
    }
}

/// A query is quantized as it should be.
pub proof fn queries_are_quantized<
    R: Fn(&Vec<u32>, &Vec<u32>) -> Vec<u32>,
    N: Fn(&Vec<u32>) -> u32,
    S: Fn(u32, u8) -> u32,
    L: Fn(u32, u32, u8) -> u8,
>(
    rotate: R,
    norm: N,
    step: S,
    level: L,
    rotation: Vec<u32>,
    vector: Vec<u32>,
    bq: u8,
    code: QueryQuantizedCode,
)
    requires
        rabitq::cuts_byte(bq),
        vector@.len() % 64 == 0,
        rotation@.len() == vector@.len() * vector@.len(),
        rabitq::keeps_dim(rotate),
        rabitq::quantized_by(rotate, norm, step, level, rotation, vector, bq, code),
    ensures
        exists|rotated: Vec<u32>, top: u32, levels: Seq<u8>| #[trigger]
            call_ensures(rotate, (&rotation, &vector), rotated) && #[trigger] is_quantized(
                norm,
                step,
                level,
                rotated,
                bq,
                top,
                levels,
                code,
            ),
{
    let (rotated, top, levels) = choose|rotated: Vec<u32>, top: u32, magnitudes: Seq<u8>|
        {
            &&& #[trigger] call_ensures(rotate, (&rotation, &vector), rotated)
            &&& call_ensures(norm, (&rotated,), code.alpha)
            &&& #[trigger] rabitq::graded(
                step,
                level,
                rotated@,
                top,
                bq,
                code.scale,
                magnitudes,
            )
            &&& code.packs(rotated@, magnitudes, bq)
        };
    let dim = rotated@.len() as int;
    assert(dim == vector@.len());
    bit_laws::signs_are_bits(code.bits@, rotated@);
    code_laws::magnitudes_are_packed(code, rotated@, levels, bq);
    magnitudes_are_summed(code.quantized@, bq, dim, dim);
    dimensions_have_bits(bq, dim, dim);
    assert forall|d: int| 0 <= d < dim implies #[trigger] bit_laws::magnitude_of(
        code.quantized@,
        bq,
        d,
    ) == if levels[d] > largest_of_bits(bq) as u8 {
        largest_of_bits(bq) as u8
    } else {
        levels[d]
    } by {
        dimensions_have_bits(bq, dim, d);
        bit_laws::magnitudes_are_bits(code.quantized@, bq, d);
        assert(rabitq::packed_value(code.quantized@, bq, d) == rabitq::capped(levels[d], bq));
    }
    assert(is_quantized(norm, step, level, rotated, bq, top, levels, code));
}

/// A query is looked for by its code, the signs of the rotated query or, where bits are asked for, its
/// quantized code. Partitions are ranked by the rotated query, entries are estimated by the code, and
/// vectors are measured by the query itself.
pub proof fn queries_mean<
    R: Fn(&Vec<u32>, &Vec<u32>) -> Vec<u32>,
    C: Fn(&Vec<u32>, u32) -> (u32, u32),
    N: Fn(&Vec<u32>) -> u32,
    S: Fn(u32, u8) -> u32,
    L: Fn(u32, u32, u8) -> u8,
    F: Fn(&Vec<u32>, u32) -> u32,
    E: Fn(u64, u32, u32) -> u32,
    X: Fn(&Vec<u32>) -> u32,
    Z: Fn(u8, u32, u32) -> u32,
    FM: Fn(&Vec<u32>) -> F,
    EM: Fn(&QueryCode) -> E,
    XM: Fn(&Vec<u32>) -> X,
>(
    rotate: R,
    corrections: C,
    norm: N,
    step: S,
    level: L,
    routing: FM,
    estimating: EM,
    measuring: XM,
    restore: Z,
    m: IndexModel,
    query: Vec<u32>,
    options: SearchOptions,
    results: Seq<(u64, u32)>,
)
    requires
        m.wf(),
        query@.len() == m.dim,
        rabitq::keeps_dim(rotate),
        m.raw.len() > 0,
        options.k > 0,
        search::query_outcome(
            rotate,
            corrections,
            norm,
            step,
            level,
            routing,
            estimating,
            measuring,
            restore,
            m,
            query,
            options,
            results,
        ),
    ensures
        exists|code: QueryCode, rotated: Vec<u32>, route: F, estimate: E, exact: X|
            {
                &&& match code {
                    QueryCode::Signs(c) => options.query_bits == 0 && index_laws::is_code_of(
                        rotate,
                        corrections,
                        m.rotation,
                        m.coder.epsilon_0,
                        query,
                        c@,
                    ),
                    QueryCode::Quantized(c) => options.query_bits != 0 && rabitq::quantized_by(
                        rotate,
                        norm,
                        step,
                        level,
                        m.rotation,
                        query,
                        options.query_bits,
                        c,
                    ),
                }
                &&& #[trigger] call_ensures(rotate, (&m.rotation, &query), rotated)
                &&& #[trigger] call_ensures(routing, (&rotated,), route)
                &&& #[trigger] call_ensures(estimating, (&code,), estimate)
                &&& #[trigger] call_ensures(measuring, (&query,), exact)
                &&& search::search_outcome(
                    route,
                    estimate,
                    exact,
                    restore,
                    m,
                    code,
                    options,
                    results,
                )
            },
{
    let (code, route, estimate, exact) = choose|
        code: QueryCode,
        route: F,
        estimate: E,
        exact: X,
    | #[trigger]
        search::prepared(
            rotate,
            corrections,
            norm,
            step,
            level,
            routing,
            estimating,
            measuring,
            m,
            query,
            options.query_bits,
            code,
            route,
            estimate,
            exact,
        ) && search::search_outcome(route, estimate, exact, restore, m, code, options, results);
    let rotated = choose|rotated: Vec<u32>| #[trigger]
        call_ensures(rotate, (&m.rotation, &query), rotated) && call_ensures(
            routing,
            (&rotated,),
            route,
        );
    if let QueryCode::Signs(c) = code {
        index_laws::codes_hold_signs(
            rotate,
            corrections,
            m.rotation,
            m.coder.epsilon_0,
            query,
            c@,
        );
    }
    assert(call_ensures(rotate, (&m.rotation, &query), rotated));
    assert(call_ensures(routing, (&rotated,), route));
    assert(call_ensures(estimating, (&code,), estimate));
    assert(call_ensures(measuring, (&query,), exact));
}

/// An id is listed by a partition.
pub open spec fn lists(entries: Seq<(u64, rabitq::Code)>, id: int) -> bool {
    exists|i: int| 0 <= i < entries.len() && (#[trigger] entries[i]).0 == id
}

proof fn holder_is_last(partitions: Seq<Seq<(u64, rabitq::Code)>>, id: int, n: int)
    requires
        0 <= n <= partitions.len(),
    ensures
        ({
            let p = index_ivf_rq::holder(partitions, id, n);
            &&& n > 0 ==> 0 <= p < n
            &&& n == 0 ==> p == 0
            &&& forall|q: int| p < q < n ==> !lists(#[trigger] partitions[q], id)
            &&& n > 0 && p > 0 ==> lists(partitions[p], id)
        }),
    decreases n,
{
    if n > 0 {
        holder_is_last(partitions, id, n - 1);
    }
}

/// The vectors of the entries of a partition, one row each.
pub open spec fn are_rows_of(m: IndexModel, p: int, rows: Seq<Seq<u32>>) -> bool {
    &&& rows.len() == m.partitions[p].len()
    &&& forall|i: int|
        0 <= i < rows.len() ==> #[trigger] rows[i] == m.raw[m.partitions[p][i].0 as int]@
}

/// SQ8 codes that are built anew are those of the vectors of each partition, in the order of its
/// entries.
pub proof fn sq8_codes_are_of_the_vectors<Q: Fn(u32, u32, u32) -> u8>(
    quantize: Q,
    m: IndexModel,
    p: int,
    rows: Seq<Seq<u32>>,
)
    requires
        m.wf(),
        index_ivf_rq::all_sq8_built(quantize, m),
        0 <= p < m.partitions.len(),
        are_rows_of(m, p, rows),
    ensures
        index_laws::is_sq8_of(quantize, rows, m.sq8[p]),
{
    assert(rows =~= index_ivf_rq::entry_rows(m.partitions[p], m.raw));
    assert forall|i: int| 0 <= i < rows.len() implies (#[trigger] rows[i]).len() == m.dim by {
        let entry = m.partitions[p][i];
        assert(m.entry_wf(p, i));
    }
    index_laws::sq8_codes_mean(quantize, rows, m.sq8[p]);
}

/// An index that is put together of its parts holds them unchanged. The centroids are rotated and
/// measured one by one, the SQ8 codes and what is known of the partitions are those of their entries,
/// and the partition of an id is the one that lists it, the last one where there are several.
pub proof fn parts_are_put_together<
    R: Fn(&Vec<u32>, &Vec<u32>) -> Vec<u32>,
    N: Fn(&Vec<u32>) -> u32,
    Q: Fn(u32, u32, u32) -> u8,
>(
    rotate: R,
    norm: N,
    quantize: Q,
    config: RabitqConfig,
    coder: RabitqConfig,
    rotation: Vec<u32>,
    centroids: Seq<Vec<u32>>,
    partitions: Seq<Seq<(u64, rabitq::Code)>>,
    raw: Seq<Vec<u32>>,
    payloads: Seq<Payload>,
    next_id: u64,
    m: IndexModel,
)
    requires
        index_ivf_rq::assembled(
            rotate,
            norm,
            quantize,
            config,
            coder,
            rotation,
            centroids,
            partitions,
            raw,
            payloads,
            next_id,
            m,
        ),
        partitions.len() <= usize::MAX,
    ensures
        m.rotation == rotation,
        m.centroids == centroids,
        m.partitions == partitions,
        m.raw == raw,
        m.payloads == payloads,
        m.next_id == next_id,
        m.rotated_centroids.len() == centroids.len(),
        m.norms.len() == centroids.len(),
        forall|i: int|
            0 <= i < centroids.len() ==> call_ensures(
                rotate,
                (&rotation, &centroids[i]),
                #[trigger] m.rotated_centroids[i],
            ),
        forall|i: int|
            0 <= i < centroids.len() ==> call_ensures(
                norm,
                (&m.rotated_centroids[i],),
                #[trigger] m.norms[i],
            ),
        m.stats.len() == partitions.len(),
        forall|p: int|
            0 <= p < partitions.len() ==> index_laws::is_known_of(
                partitions[p],
                payloads,
                partitions[p].len() as int,
                #[trigger] m.stats[p],
            ),
        m.id_to_partition.len() == raw.len(),
        forall|p: int, i: int|
            #![trigger partitions[p][i]]
            0 <= p < partitions.len() && 0 <= i < partitions[p].len() && partitions[p][i].0
                < raw.len() && (forall|q: int|
                p < q < partitions.len() ==> !lists(
                    #[trigger] partitions[q],
                    partitions[p][i].0 as int,
                )) ==> m.id_to_partition[partitions[p][i].0 as int] == p,
        !m.sq8_dirty,
{
    assert forall|p: int| 0 <= p < partitions.len() implies index_laws::is_known_of(
        partitions[p],
        payloads,
        partitions[p].len() as int,
        #[trigger] m.stats[p],
    ) by {
        index_laws::stats_come_from_vectors(
            partitions[p],
            payloads,
            partitions[p].len() as int,
        );
    }
    assert forall|p: int, i: int|
        #![trigger partitions[p][i]]
        0 <= p < partitions.len() && 0 <= i < partitions[p].len() && partitions[p][i].0
            < raw.len() && (forall|q: int|
            p < q < partitions.len() ==> !lists(
                #[trigger] partitions[q],
                partitions[p][i].0 as int,
            )) implies m.id_to_partition[partitions[p][i].0 as int] == p by {
        let id = partitions[p][i].0 as int;
        holder_is_last(partitions, id, partitions.len() as int);
        let h = index_ivf_rq::holder(partitions, id, partitions.len() as int);
        assert(lists(partitions[p], id));
        if h > p {
            assert(!lists(partitions[h], id));
        }
    }
}

} // verus!
