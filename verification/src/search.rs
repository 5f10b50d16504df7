//! Searching: which partitions are looked at, which of their vectors pass the filter, and how
//! the candidates are ranked.

use crate::ieee;
use crate::index_ivf_rq::{IndexModel, IvfRabitqIndex, QueryQuantizedCode, RabitqCode};
use crate::index_ivf_rq;
use crate::ordering;
use crate::payload;
use crate::rabitq;
use crate::simd;
use crate::sql::SqlPredicate;
use crate::sql;
use crate::sql_parser;
use vstd::prelude::*;

verus! {

/// What a search is asked for.
#[derive(Debug)]
pub struct SearchOptions {
    /// How many results are wanted.
    pub k: usize,
    /// How many partitions are looked at; 0 for all.
    pub nprobe: usize,
    /// Measure the best candidates again.
    pub refine: bool,
    /// How many candidates are measured again.
    pub refine_k: usize,
    /// Compare codes in batches.
    pub fastscan: bool,
    /// How many bits per dimension the query code has; 0 for the signs alone.
    pub query_bits: u8,
    /// Measure again by SQ8 codes instead of the vectors.
    pub sq8_refine: bool,
    /// The text of a filter.
    pub sql_filter: Option<String>,
}

impl Default for SearchOptions {
    fn default() -> (options: Self)
        ensures
            options.k == 10,
            options.nprobe == 0,
            options.refine,
            options.refine_k == 100,
            options.fastscan,
            options.query_bits == 0,
            !options.sq8_refine,
            options.sql_filter is None,
    {
        SearchOptions {
            k: 10,
            nprobe: 0,
            refine: true,
            refine_k: 100,
            fastscan: true,
            query_bits: 0,
            sq8_refine: false,
            sql_filter: None,
        }
    }
}

/// The code of a query.
#[derive(Debug)]
pub enum QueryCode {
    Signs(RabitqCode),
    Quantized(QueryQuantizedCode),
}

impl QueryCode {
    /// The code is one of a query with `dim` dimensions.
    pub open spec fn fits(&self, dim: int) -> bool {
        match self {
            QueryCode::Signs(code) => code.bits@.len() == dim / 8,
            QueryCode::Quantized(code) => code.has_dims(dim) && 255 * dim <= u64::MAX,
        }
    }

    /// What the estimate of a distance is drawn from: the Hamming distance of the signs, or the sum
    /// of the magnitudes where the vector has a positive sign.
    pub open spec fn reading(&self, dim: int, bits: Seq<u8>) -> int {
        match self {
            QueryCode::Signs(code) => simd::hamming(code.bits@, bits) as int,
            QueryCode::Quantized(code) => rabitq::masked_sum(bits, code.quantized@, code.bq, dim),
        }
    }

    /// What the estimate of a distance is drawn from.
    fn read(&self, dim: usize, bits: &[u8]) -> (r: u64)
        requires
            self.fits(dim as int),
            dim % 64 == 0,
            bits@.len() == dim / 8,
        ensures
            r == self.reading(dim as int, bits@),
    {
        match self {
            QueryCode::Signs(code) => simd::hamming_distance(code.bits.as_slice(), bits),
            QueryCode::Quantized(code) => rabitq::positive_sum(dim, code, bits),
        }
    }
}

/// A code is that of a query with `query_bits` bits per dimension, or that of its signs where these
/// are 0.
pub open spec fn coded<
    R: Fn(&Vec<u32>, &Vec<u32>) -> Vec<u32>,
    C: Fn(&Vec<u32>, u32) -> (u32, u32),
    N: Fn(&Vec<u32>) -> u32,
    S: Fn(u32, u8) -> u32,
    L: Fn(u32, u32, u8) -> u8,
>(
    rotate: R,
    corrections: C,
    norm: N,
    step: S,
    level: L,
    rotation: Vec<u32>,
    epsilon_0: u32,
    query: Vec<u32>,
    query_bits: u8,
    code: QueryCode,
) -> bool {
    match code {
        QueryCode::Signs(c) => query_bits == 0 && rabitq::encoded_by(
            rotate,
            corrections,
            rotation,
            epsilon_0,
            query,
            c@,
        ),
        QueryCode::Quantized(c) => query_bits != 0 && rabitq::quantized_by(
            rotate,
            norm,
            step,
            level,
            rotation,
            query,
            query_bits,
            c,
        ),
    }
}

/// The code of a query with `query_bits` bits per dimension, or that of its signs where these are 0.
pub fn query_code<
    R: Fn(&Vec<u32>, &Vec<u32>) -> Vec<u32>,
    C: Fn(&Vec<u32>, u32) -> (u32, u32),
    N: Fn(&Vec<u32>) -> u32,
    S: Fn(u32, u8) -> u32,
    L: Fn(u32, u32, u8) -> u8,
>(
    index: &IvfRabitqIndex,
    query: &Vec<u32>,
    query_bits: u8,
    rotate: &R,
    corrections: &C,
    norm: &N,
    step: &S,
    level: &L,
) -> (code: QueryCode)
    requires
        index.wf(),
        query@.len() == index@.dim,
        query_bits == 0 || rabitq::cuts_byte(query_bits),
        rabitq::keeps_dim(*rotate),
        forall|r: Vec<u32>, e: u32| #[trigger] call_requires(*corrections, (&r, e)),
        forall|r: Vec<u32>| #[trigger] call_requires(*norm, (&r,)),
        forall|t: u32, l: u8| #[trigger] call_requires(*step, (t, l)),
        forall|v: u32, t: u32, l: u8| #[trigger] call_requires(*level, (v, t, l)),
    ensures
        coded(
            *rotate,
            *corrections,
            *norm,
            *step,
            *level,
            index@.rotation,
            index@.coder.epsilon_0,
            *query,
            query_bits,
            code,
        ),
        code.fits(index@.dim),
{
    if query_bits == 0 {
        QueryCode::Signs(index.encode_query(query, rotate, corrections))
    } else {
        QueryCode::Quantized(
            index.quantizer().encode_query_quantized(query, query_bits, rotate, norm, step, level),
        )
    }
}

/// The filter of a text, if there is one that can be parsed.
pub open spec fn filter_named(sql: Option<String>) -> Option<sql::Pred> {
    match sql {
        None => None,
        Some(s) => match sql_parser::parsed_text(s@) {
            Ok(p) => Some(p),
            Err(_) => None,
        },
    }
}

/// The filter of a search.
pub open spec fn filter_of(options: SearchOptions) -> Option<sql::Pred> {
    filter_named(options.sql_filter)
}

/// The model of an optional filter.
pub open spec fn filter_view(filter: Option<SqlPredicate>) -> Option<sql::Pred> {
    match filter {
        Some(p) => Some(p@),
        None => None,
    }
}

/// How many partitions are looked at.
pub open spec fn probes(nprobe: int, partitions: int) -> int {
    if nprobe == 0 || nprobe > partitions {
        partitions
    } else {
        nprobe
    }
}

/// How many partitions are looked at.
pub fn probe_count(nprobe: usize, partitions: usize) -> (n: usize)
    ensures
        n == probes(nprobe as int, partitions as int),
{
    if nprobe == 0 || nprobe > partitions {
        partitions
    } else {
        nprobe
    }
}

/// The filter of a search: a text that cannot be parsed filters nothing.
pub fn parse_filter(options: &SearchOptions) -> (filter: Option<SqlPredicate>)
    ensures
        filter_view(filter) == filter_of(*options),
{
    match &options.sql_filter {
        None => None,
        Some(s) => match sql::parse_sql_filter(s.as_str()) {
            Ok(p) => Some(p),
            Err(_) => None,
        },
    }
}

/// A vector passes the filter; without a payload it passes none.
pub open spec fn passes(m: IndexModel, id: u64, filter: Option<sql::Pred>) -> bool {
    match filter {
        None => true,
        Some(p) => match m.fields(id) {
            Some(f) => p.holds(f),
            None => false,
        },
    }
}

/// Whether a vector passes the filter.
pub fn passes_predicate(index: &IvfRabitqIndex, id: u64, filter: &Option<SqlPredicate>) -> (r: bool)
    ensures
        r == passes(index@, id, filter_view(*filter)),
{
    match filter {
        None => true,
        Some(p) => match index.payload(id) {
            Some(payload) => p.eval(payload),
            None => false,
        },
    }
}

/// The aggregates of a partition do not rule the filter out.
pub open spec fn may_pass(m: IndexModel, pid: int, filter: Option<sql::Pred>) -> bool {
    match filter {
        None => true,
        Some(p) => p.may_match(m.stats[pid]),
    }
}

/// Those of the first `n` partitions that the filter does not rule out, in order.
pub open spec fn eligible(m: IndexModel, filter: Option<sql::Pred>, n: int) -> Seq<usize>
    decreases n,
{
    if n <= 0 {
        Seq::empty()
    } else if may_pass(m, n - 1, filter) {
        eligible(m, filter, n - 1).push((n - 1) as usize)
    } else {
        eligible(m, filter, n - 1)
    }
}

/// The partitions with their distances from the query, as the routing function gave them.
pub open spec fn routed_by<F: Fn(&Vec<u32>, u32) -> u32>(
    route: F,
    m: IndexModel,
    pids: Seq<usize>,
    routed: Seq<(usize, u32)>,
) -> bool {
    &&& routed.len() == pids.len()
    &&& forall|i: int|
        0 <= i < pids.len() ==> {
            &&& (#[trigger] routed[i]).0 == pids[i]
            &&& call_ensures(
                route,
                (&m.rotated_centroids[pids[i] as int], m.norms[pids[i] as int]),
                routed[i].1,
            )
        }
}

/// The first `n` items, or all where there are fewer.
pub open spec fn first<T>(items: Seq<T>, n: int) -> Seq<T> {
    if n < items.len() {
        items.take(n)
    } else {
        items
    }
}

/// The nearest partitions.
pub open spec fn nearest_partitions(routed: Seq<(usize, u32)>, n: int) -> Seq<usize> {
    first(ordering::by_distance(routed), n).map_values(|r: (usize, u32)| r.0)
}

/// A function can be called on centroids of `dim` components and gives numbers only.
pub open spec fn routes_numbers<F: Fn(&Vec<u32>, u32) -> u32>(route: F, dim: int) -> bool {
    &&& forall|c: Vec<u32>, n: u32|
        c@.len() == dim ==> #[trigger] call_requires(route, (&c, n))
    &&& forall|c: Vec<u32>, n: u32, d: u32|
        c@.len() == dim && #[trigger] call_ensures(route, (&c, n), d) ==> !ieee::single_nan(d)
}

/// A function that gives numbers only.
pub open spec fn estimates_numbers<E: Fn(u64, u32, u32) -> u32>(estimate: E) -> bool {
    &&& forall|h: u64, a: u32, b: u32| #[trigger] call_requires(estimate, (h, a, b))
    &&& forall|h: u64, a: u32, b: u32, d: u32| #[trigger]
        call_ensures(estimate, (h, a, b), d) ==> !ieee::single_nan(d)
}

/// A function can be called on vectors of `dim` components and gives numbers only.
pub open spec fn measures_numbers<X: Fn(&Vec<u32>) -> u32>(exact: X, dim: int) -> bool {
    &&& forall|v: Vec<u32>| v@.len() == dim ==> #[trigger] call_requires(exact, (&v,))
    &&& forall|v: Vec<u32>, d: u32|
        v@.len() == dim && #[trigger] call_ensures(exact, (&v,), d) ==> !ieee::single_nan(d)
}

/// A function can be called on the vectors of a list and gives numbers only.
pub open spec fn measures_all<X: Fn(&Vec<u32>) -> u32>(exact: X, vectors: Seq<Vec<u32>>) -> bool {
    &&& forall|i: int|
        0 <= i < vectors.len() ==> call_requires(exact, (&#[trigger] vectors[i],))
    &&& forall|i: int, d: u32|
        0 <= i < vectors.len() && #[trigger] call_ensures(exact, (&vectors[i],), d)
            ==> !ieee::single_nan(d)
}

/// Keeps the first `n` items.
pub(crate) fn keep_first<T: Copy>(items: Vec<T>, n: usize) -> (kept: Vec<T>)
    ensures
        kept@ == first(items@, n as int),
{
    let mut items = items;
    if n < items.len() {
        items.truncate(n);
        assert(items@ =~= first(items@, n as int));
    }
    items
}

/// The partitions of a list with distances.
pub(crate) fn places_of(kept: &Vec<(usize, u32)>) -> (pids: Vec<usize>)
    ensures
        pids@ == kept@.map_values(|r: (usize, u32)| r.0),
{
    let mut pids: Vec<usize> = Vec::with_capacity(kept.len());
    let mut i: usize = 0;
    while i < kept.len()
        invariant
            i <= kept@.len(),
            pids@ == kept@.take(i as int).map_values(|r: (usize, u32)| r.0),
        decreases kept@.len() - i,
    {
        pids.push(kept[i].0);
        i += 1;
        assert(pids@ =~= kept@.take(i as int).map_values(|r: (usize, u32)| r.0));
    }
    assert(kept@.take(i as int) =~= kept@);
    pids
}

/// The partitions that a search looks at: those that the filter does not rule out, the nearest
/// first, as many as asked for.
pub fn select_partitions<F: Fn(&Vec<u32>, u32) -> u32>(
    index: &IvfRabitqIndex,
    filter: &Option<SqlPredicate>,
    n: usize,
    route: &F,
) -> (pids: Vec<usize>)
    requires
        index@.wf(),
        routes_numbers(*route, index@.dim),
    ensures
        exists|routed: Seq<(usize, u32)>| #[trigger]
            routed_by(
                *route,
                index@,
                eligible(index@, filter_view(*filter), index@.partitions.len() as int),
                routed,
            ) && pids@ == nearest_partitions(routed, n as int),
        forall|i: int| 0 <= i < pids@.len() ==> #[trigger] pids@[i] < index@.partitions.len(),
{
    let ghost m = index@;
    let ghost f = filter_view(*filter);
    let count: usize = index.num_partitions();
    let mut routed: Vec<(usize, u32)> = Vec::new();
    let mut p: usize = 0;
    while p < count
        invariant
            p <= count,
            count == m.partitions.len(),
            m == index@,
            m.wf(),
            f == filter_view(*filter),
            routes_numbers(*route, index@.dim),
            routed_by(*route, m, eligible(m, f, p as int), routed@),
            forall|i: int| 0 <= i < routed@.len() ==> (#[trigger] routed@[i]).0 < p,
            ordering::comparable(routed@),
        decreases count - p,
    {
        let wanted: bool = match filter {
            None => true,
            Some(predicate) => sql::can_partition_match(predicate, index.partition_stats(p)),
        };
        if wanted {
            let d: u32 = route(&index.rotated_centroids()[p], index.rotated_centroid_norms_sq()[p]);
            let ghost before = routed@;
            routed.push((p, d));
            assert forall|i: int| 0 <= i < routed@.len() implies {
                &&& (#[trigger] routed@[i]).0 == eligible(m, f, p + 1)[i]
                &&& call_ensures(
                    *route,
                    (
                        &m.rotated_centroids[eligible(m, f, p + 1)[i] as int],
                        m.norms[eligible(m, f, p + 1)[i] as int],
                    ),
                    routed@[i].1,
                )
            } by {
                if i < before.len() {
                    assert(routed@[i] == before[i]);
                    assert(eligible(m, f, p + 1)[i] == eligible(m, f, p as int)[i]);
                }
            }
        }
        p += 1;
    }
    let sorted = ordering::sort_by_distance(&routed);
    proof {
        assert(routed@.len() == routed.len());
        ordering::by_distance_places(routed@);
    }
    let kept = keep_first(sorted, n);
    let pids = places_of(&kept);
    assert(pids@ == nearest_partitions(routed@, n as int));
    assert forall|j: int| 0 <= j < pids@.len() implies #[trigger] pids@[j] < m.partitions.len() by {
        assert(pids@[j] == ordering::by_distance(routed@)[j].0);
        let q = ordering::stable_order_of(ordering::distance_keys(routed@))[j] as int;
        assert(ordering::by_distance(routed@)[j] == routed@[q]);
    }
    pids
}

/// Those of the first `n` entries that pass the filter, in order.
pub open spec fn passing(
    m: IndexModel,
    entries: Seq<(u64, rabitq::Code)>,
    filter: Option<sql::Pred>,
    n: int,
) -> Seq<(u64, rabitq::Code)>
    decreases n,
{
    if n <= 0 {
        Seq::empty()
    } else if passes(m, entries[n - 1].0, filter) {
        passing(m, entries, filter, n - 1).push(entries[n - 1])
    } else {
        passing(m, entries, filter, n - 1)
    }
}

/// The candidate of an entry: its id and the estimate of its distance.
pub open spec fn estimate_of<E: Fn(u64, u32, u32) -> u32>(
    estimate: E,
    query: QueryCode,
    dim: int,
    entry: (u64, rabitq::Code),
    candidate: (u64, u32),
) -> bool {
    &&& candidate.0 == entry.0
    &&& call_ensures(
        estimate,
        (query.reading(dim, entry.1.bits) as u64, entry.1.alpha, entry.1.beta),
        candidate.1,
    )
}

/// The candidates of entries, place by place.
pub open spec fn estimated<E: Fn(u64, u32, u32) -> u32>(
    estimate: E,
    query: QueryCode,
    dim: int,
    entries: Seq<(u64, rabitq::Code)>,
    candidates: Seq<(u64, u32)>,
) -> bool {
    &&& candidates.len() == entries.len()
    &&& forall|i: int|
        0 <= i < entries.len() ==> estimate_of(
            estimate,
            query,
            dim,
            entries[i],
            #[trigger] candidates[i],
        )
}

/// Appends the candidate of one entry.
fn push_candidate<E: Fn(u64, u32, u32) -> u32>(
    candidates: &mut Vec<(u64, u32)>,
    id: u64,
    code: &RabitqCode,
    reading: u64,
    estimate: &E,
    Ghost(query): Ghost<QueryCode>,
    Ghost(dim): Ghost<int>,
    Ghost(entries): Ghost<Seq<(u64, rabitq::Code)>>,
)
    requires
        estimates_numbers(*estimate),
        reading == query.reading(dim, code.bits@),
        estimated(*estimate, query, dim, entries, old(candidates)@),
        ordering::comparable(old(candidates)@),
    ensures
        estimated(*estimate, query, dim, entries.push((id, code@)), final(candidates)@),
        ordering::comparable(final(candidates)@),
{
    let d: u32 = estimate(reading, code.alpha, code.beta);
    candidates.push((id, d));
    let ghost longer = entries.push((id, code@));
    assert(estimate_of(*estimate, query, dim, (id, code@), (id, d)));
    assert forall|i: int| 0 <= i < longer.len() implies estimate_of(
        *estimate,
        query,
        dim,
        longer[i],
        #[trigger] candidates@[i],
    ) by {
        if i < entries.len() {
            assert(candidates@[i] == old(candidates)@[i]);
            assert(longer[i] == entries[i]);
        }
    }
}

/// How many codes are compared at a time.
pub const BATCH: usize = 64;

/// The Hamming distances from a query to a run of entries, all at once.
fn batch_readings(
    query: &RabitqCode,
    entries: &Vec<(u64, RabitqCode)>,
    from: usize,
    to: usize,
) -> (out: Vec<u64>)
    requires
        from <= to <= entries@.len(),
        8 * query.bits@.len() <= u64::MAX,
        forall|i: int|
            0 <= i < entries@.len() ==> (#[trigger] entries@[i]).1.bits@.len() == query.bits@.len(),
    ensures
        out@.len() == to - from,
        forall|j: int|
            0 <= j < out@.len() ==> #[trigger] out@[j] == simd::hamming(
                query.bits@,
                entries@[from + j].1.bits@,
            ),
{
    let mut codes: Vec<&[u8]> = Vec::with_capacity(to - from);
    let mut i: usize = from;
    while i < to
        invariant
            from <= i <= to <= entries@.len(),
            codes@.len() == i - from,
            forall|i: int|
                0 <= i < entries@.len() ==> (#[trigger] entries@[i]).1.bits@.len()
                    == query.bits@.len(),
            forall|j: int|
                0 <= j < codes@.len() ==> (#[trigger] codes@[j])@ == entries@[from + j].1.bits@,
            forall|j: int| 0 <= j < codes@.len() ==> (#[trigger] codes@[j])@.len() == query.bits@.len(),
        decreases to - i,
    {
        assert(entries@[i as int].1.bits@.len() == query.bits@.len());
        codes.push(entries[i].1.bits.as_slice());
        i += 1;
    }
    let count: usize = to - from;
    let mut out: Vec<u64> = vec![0u64; count];
    simd::batch_hamming_distance(query.bits.as_slice(), codes.as_slice(), out.as_mut_slice());
    out
}

/// The candidates of a partition: its entries that pass the filter, with estimated distances.
pub fn scan_partition<E: Fn(u64, u32, u32) -> u32>(
    index: &IvfRabitqIndex,
    query: &QueryCode,
    pid: usize,
    filter: &Option<SqlPredicate>,
    fastscan: bool,
    estimate: &E,
) -> (candidates: Vec<(u64, u32)>)
    requires
        index@.wf(),
        pid < index@.partitions.len(),
        query.fits(index@.dim),
        estimates_numbers(*estimate),
    ensures
        estimated(
            *estimate,
            *query,
            index@.dim,
            passing(
                index@,
                index@.partitions[pid as int],
                filter_view(*filter),
                index@.partitions[pid as int].len() as int,
            ),
            candidates@,
        ),
        ordering::comparable(candidates@),
{
    let ghost m = index@;
    let ghost f = filter_view(*filter);
    let dim: usize = index.config().dim;
    let entries = index.partition_entries(pid);
    let ghost views = m.partitions[pid as int];
    let n: usize = entries.len();
    let mut candidates: Vec<(u64, u32)> = Vec::new();
    let mut i: usize = 0;
    assert forall|j: int| 0 <= j < n implies (#[trigger] entries@[j]).1.bits@.len() == m.dim / 8 by {
        assert(views[j].1.bits == entries@[j].1.bits@);
        assert(m.partitions[pid as int][j] == views[j]);
        assert(m.entry_wf(pid as int, j));
    }
    if fastscan {
        if let QueryCode::Signs(signs) = query {
            while i < n
                invariant
                    i <= n,
                    n == entries@.len(),
                    m == index@,
                    m.dim <= usize::MAX,
                    f == filter_view(*filter),
                    *query == QueryCode::Signs(*signs),
                    query.fits(m.dim),
                    m.dim % 64 == 0,
                    views == index_ivf_rq::entry_views(entries@),
                    forall|j: int|
                        0 <= j < n ==> (#[trigger] entries@[j]).1.bits@.len() == m.dim / 8,
                    estimates_numbers(*estimate),
                    estimated(
                        *estimate,
                        *query,
                        m.dim,
                        passing(m, views, f, i as int),
                        candidates@,
                    ),
                    ordering::comparable(candidates@),
                decreases n - i,
            {
                let end: usize = if n - i > BATCH {
                    i + BATCH
                } else {
                    n
                };
                let out = batch_readings(signs, entries, i, end);
                let start: usize = i;
                while i < end
                    invariant
                        start <= i <= end <= n,
                        n == entries@.len(),
                        m == index@,
                        f == filter_view(*filter),
                        *query == QueryCode::Signs(*signs),
                        views == index_ivf_rq::entry_views(entries@),
                        out@.len() == end - start,
                        forall|j: int|
                            0 <= j < out@.len() ==> #[trigger] out@[j] == simd::hamming(
                                signs.bits@,
                                entries@[start + j].1.bits@,
                            ),
                        estimates_numbers(*estimate),
                        estimated(
                            *estimate,
                            *query,
                            m.dim,
                            passing(m, views, f, i as int),
                            candidates@,
                        ),
                        ordering::comparable(candidates@),
                    decreases end - i,
                {
                    let id: u64 = entries[i].0;
                    assert(views[i as int] == (id, entries@[i as int].1@));
                    if passes_predicate(index, id, filter) {
                        assert(out@[i - start] == simd::hamming(
                            signs.bits@,
                            entries@[i as int].1.bits@,
                        ));
                        push_candidate(
                            &mut candidates,
                            id,
                            &entries[i].1,
                            out[i - start],
                            estimate,
                            Ghost(*query),
                            Ghost(m.dim),
                            Ghost(passing(m, views, f, i as int)),
                        );
                    }
                    i += 1;
                }
            }
            return candidates;
        }
    }
    while i < n
        invariant
            i <= n,
            n == entries@.len(),
            m == index@,
            f == filter_view(*filter),
            dim == m.dim,
            query.fits(m.dim),
            m.dim % 64 == 0,
            views == index_ivf_rq::entry_views(entries@),
            forall|j: int| 0 <= j < n ==> (#[trigger] entries@[j]).1.bits@.len() == m.dim / 8,
            estimates_numbers(*estimate),
            estimated(*estimate, *query, m.dim, passing(m, views, f, i as int), candidates@),
            ordering::comparable(candidates@),
        decreases n - i,
    {
        let id: u64 = entries[i].0;
        assert(views[i as int] == (id, entries@[i as int].1@));
        if passes_predicate(index, id, filter) {
            assert(entries@[i as int].1.bits@.len() == m.dim / 8);
            let reading: u64 = query.read(dim, entries[i].1.bits.as_slice());
            push_candidate(
                &mut candidates,
                id,
                &entries[i].1,
                reading,
                estimate,
                Ghost(*query),
                Ghost(m.dim),
                Ghost(passing(m, views, f, i as int)),
            );
        }
        i += 1;
    }
    candidates
}

/// The entries of partitions that pass the filter, partition by partition.
pub open spec fn passing_in(
    m: IndexModel,
    pids: Seq<usize>,
    filter: Option<sql::Pred>,
    n: int,
) -> Seq<(u64, rabitq::Code)>
    decreases n,
{
    if n <= 0 {
        Seq::empty()
    } else {
        let entries = m.partitions[pids[n - 1] as int];
        passing_in(m, pids, filter, n - 1) + passing(m, entries, filter, entries.len() as int)
    }
}

/// The candidates of some partitions.
pub fn scan_partitions<E: Fn(u64, u32, u32) -> u32>(
    index: &IvfRabitqIndex,
    query: &QueryCode,
    pids: &Vec<usize>,
    filter: &Option<SqlPredicate>,
    fastscan: bool,
    estimate: &E,
) -> (candidates: Vec<(u64, u32)>)
    requires
        index@.wf(),
        forall|i: int| 0 <= i < pids@.len() ==> #[trigger] pids@[i] < index@.partitions.len(),
        query.fits(index@.dim),
        estimates_numbers(*estimate),
    ensures
        estimated(
            *estimate,
            *query,
            index@.dim,
            passing_in(index@, pids@, filter_view(*filter), pids@.len() as int),
            candidates@,
        ),
        ordering::comparable(candidates@),
{
    let ghost m = index@;
    let ghost f = filter_view(*filter);
    let mut candidates: Vec<(u64, u32)> = Vec::new();
    let mut i: usize = 0;
    while i < pids.len()
        invariant
            i <= pids@.len(),
            m == index@,
            f == filter_view(*filter),
            m.wf(),
            forall|i: int| 0 <= i < pids@.len() ==> #[trigger] pids@[i] < m.partitions.len(),
            query.fits(m.dim),
            estimates_numbers(*estimate),
            estimated(*estimate, *query, m.dim, passing_in(m, pids@, f, i as int), candidates@),
            ordering::comparable(candidates@),
        decreases pids@.len() - i,
    {
        let mut part = scan_partition(index, query, pids[i], filter, fastscan, estimate);
        let ghost before = candidates@;
        let ghost more = part@;
        candidates.append(&mut part);
        proof {
            let entries = m.partitions[pids@[i as int] as int];
            let found = passing(m, entries, f, entries.len() as int);
            let so_far = passing_in(m, pids@, f, i as int);
            assert(candidates@ =~= before + more);
            assert forall|j: int| 0 <= j < (so_far + found).len() implies estimate_of(
                *estimate,
                *query,
                m.dim,
                (so_far + found)[j],
                #[trigger] candidates@[j],
            ) by {
                if j < so_far.len() {
                    assert(candidates@[j] == before[j]);
                } else {
                    assert(candidates@[j] == more[j - so_far.len()]);
                }
            }
        }
        i += 1;
    }
    candidates
}

/// How the best candidates are measured again.
#[derive(Debug, Clone, Copy, PartialEq, Eq, Structural)]
pub enum Remeasure {
    /// By their vectors.
    Raw,
    /// By their SQ8 codes.
    Sq8,
    /// Not at all.
    Keep,
}

/// How candidates are measured again.
pub open spec fn remeasure_mode(m: IndexModel, options: SearchOptions) -> Remeasure {
    if options.sq8_refine && !m.sq8_dirty {
        Remeasure::Sq8
    } else if m.raw.len() > 0 {
        Remeasure::Raw
    } else {
        Remeasure::Keep
    }
}

/// A candidate measured again: one without a vector or a code is as far as can be.
pub open spec fn remeasured_one<X: Fn(&Vec<u32>) -> u32, R: Fn(u8, u32, u32) -> u32>(
    mode: Remeasure,
    exact: X,
    restore: R,
    m: IndexModel,
    before: (u64, u32),
    after: (u64, u32),
) -> bool {
    &&& after.0 == before.0
    &&& match mode {
        Remeasure::Keep => after.1 == before.1,
        Remeasure::Raw => if before.0 < m.raw.len() {
            call_ensures(exact, (&m.raw[before.0 as int],), after.1)
        } else {
            after.1 == ieee::SINGLE_MAX
        },
        Remeasure::Sq8 => {
            ||| index_ivf_rq::sq8_measured(restore, exact, m, before.0, Some(after.1))
            ||| index_ivf_rq::sq8_measured(restore, exact, m, before.0, None) && after.1
                == ieee::SINGLE_MAX
        },
    }
}

/// Candidates measured again, place by place.
pub open spec fn remeasured<X: Fn(&Vec<u32>) -> u32, R: Fn(u8, u32, u32) -> u32>(
    mode: Remeasure,
    exact: X,
    restore: R,
    m: IndexModel,
    before: Seq<(u64, u32)>,
    after: Seq<(u64, u32)>,
) -> bool {
    &&& after.len() == before.len()
    &&& forall|i: int|
        0 <= i < before.len() ==> remeasured_one(
            mode,
            exact,
            restore,
            m,
            before[i],
            #[trigger] after[i],
        )
}

/// How many candidates are measured again: all of them where all partitions were looked at.
pub open spec fn refine_count(m: IndexModel, options: SearchOptions, candidates: int) -> int {
    if probes(options.nprobe as int, m.partitions.len() as int) == m.partitions.len()
        || options.refine_k > candidates {
        candidates
    } else {
        options.refine_k as int
    }
}

/// The candidates that are ranked: with refinement the best ones, measured again.
pub open spec fn contenders<X: Fn(&Vec<u32>) -> u32, R: Fn(u8, u32, u32) -> u32>(
    exact: X,
    restore: R,
    m: IndexModel,
    options: SearchOptions,
    candidates: Seq<(u64, u32)>,
    ranked: Seq<(u64, u32)>,
) -> bool {
    if options.refine && options.refine_k > 0 {
        remeasured(
            remeasure_mode(m, options),
            exact,
            restore,
            m,
            first(
                ordering::by_distance(candidates),
                refine_count(m, options, candidates.len() as int),
            ),
            ranked,
        )
    } else {
        ranked == candidates
    }
}

/// Measures candidates again.
fn remeasure<X: Fn(&Vec<u32>) -> u32, R: Fn(u8, u32, u32) -> u32>(
    index: &IvfRabitqIndex,
    mode: Remeasure,
    before: &Vec<(u64, u32)>,
    exact: &X,
    restore: &R,
) -> (after: Vec<(u64, u32)>)
    requires
        index.wf(),
        ordering::comparable(before@),
        measures_numbers(*exact, index@.dim),
        forall|c: u8, lo: u32, hi: u32| #[trigger] call_requires(*restore, (c, lo, hi)),
    ensures
        remeasured(mode, *exact, *restore, index@, before@, after@),
        ordering::comparable(after@),
{
    let mut after: Vec<(u64, u32)> = Vec::with_capacity(before.len());
    let mut i: usize = 0;
    while i < before.len()
        invariant
            i <= before@.len(),
            after@.len() == i,
            index.wf(),
            ordering::comparable(before@),
            measures_numbers(*exact, index@.dim),
            forall|c: u8, lo: u32, hi: u32| #[trigger] call_requires(*restore, (c, lo, hi)),
            forall|j: int|
                0 <= j < i ==> remeasured_one(
                    mode,
                    *exact,
                    *restore,
                    index@,
                    before@[j],
                    #[trigger] after@[j],
                ),
            ordering::comparable(after@),
        decreases before@.len() - i,
    {
        let id: u64 = before[i].0;
        proof {
            index.wf_model();
        }
        let d: u32 = match mode {
            Remeasure::Keep => before[i].1,
            Remeasure::Raw => match index.raw_vector(id) {
                Some(v) => exact(v),
                None => ieee::SINGLE_MAX,
            },
            Remeasure::Sq8 => match index.sq8_distance(id, restore, exact) {
                Some(d) => d,
                None => ieee::SINGLE_MAX,
            },
        };
        assert(!ieee::single_nan(ieee::SINGLE_MAX));
        assert(!ieee::single_nan(d)) by {
            if mode == Remeasure::Sq8 && index_ivf_rq::sq8_has_distance(
                *restore,
                *exact,
                index@,
                id,
                d,
            ) {
                let (pos, v) = choose|pos: int, v: Vec<u32>| #[trigger]
                    index_ivf_rq::sq8_reads(*restore, *exact, index@, id, pos, v, d);
                let data = index@.sq8[index@.id_to_partition[id as int] as int];
                assert(data.wf() && data.codes.len() > 0);
                assert(call_ensures(*exact, (&v,), d));
            }
        }
        assert(remeasured_one(mode, *exact, *restore, index@, before@[i as int], (id, d)));
        after.push((id, d));
        i += 1;
    }
    after
}

/// Ranks candidates: the best are measured again where that is asked for, and the nearest `k`
/// are the results.
pub fn rank_candidates<X: Fn(&Vec<u32>) -> u32, R: Fn(u8, u32, u32) -> u32>(
    index: &IvfRabitqIndex,
    options: &SearchOptions,
    candidates: Vec<(u64, u32)>,
    exact: &X,
    restore: &R,
) -> (results: Vec<(u64, u32)>)
    requires
        index.wf(),
        ordering::comparable(candidates@),
        measures_numbers(*exact, index@.dim),
        forall|c: u8, lo: u32, hi: u32| #[trigger] call_requires(*restore, (c, lo, hi)),
    ensures
        exists|ranked: Seq<(u64, u32)>| #[trigger]
            contenders(*exact, *restore, index@, *options, candidates@, ranked) && results@
                == first(ordering::by_distance(ranked), options.k as int) && ranked.len()
                <= usize::MAX,
{
    let ghost m = index@;
    let ghost found = candidates@;
    let ranked: Vec<(u64, u32)> = if options.refine && options.refine_k > 0 {
        let sorted = ordering::sort_by_distance(&candidates);
        proof {
            assert(candidates@.len() == candidates.len());
            ordering::by_distance_places(candidates@);
        }
        let probed: usize = probe_count(options.nprobe, index.num_partitions());
        let n: usize = if probed == index.num_partitions() || options.refine_k > candidates.len() {
            candidates.len()
        } else {
            options.refine_k
        };
        let head = keep_first(sorted, n);
        proof {
            assert forall|i: int| 0 <= i < head@.len() implies !ieee::single_nan(
                (#[trigger] head@[i]).1,
            ) by {
                let q = ordering::stable_order_of(ordering::distance_keys(candidates@))[i] as int;
                assert(ordering::by_distance(candidates@)[i] == candidates@[q]);
            }
        }
        let mode = if options.sq8_refine && !index.sq8_dirty() {
            Remeasure::Sq8
        } else if !index.is_empty() {
            Remeasure::Raw
        } else {
            Remeasure::Keep
        };
        assert(mode == remeasure_mode(m, *options));
        remeasure(index, mode, &head, exact, restore)
    } else {
        candidates
    };
    assert(ranked@.len() == ranked.len());
    assert(contenders(*exact, *restore, m, *options, found, ranked@));
    let sorted = ordering::sort_by_distance(&ranked);
    keep_first(sorted, options.k)
}

/// What a search does: it routes to partitions, collects candidates, and ranks them.
pub open spec fn searched<
    F: Fn(&Vec<u32>, u32) -> u32,
    E: Fn(u64, u32, u32) -> u32,
    X: Fn(&Vec<u32>) -> u32,
    R: Fn(u8, u32, u32) -> u32,
>(
    route: F,
    estimate: E,
    exact: X,
    restore: R,
    m: IndexModel,
    query: QueryCode,
    options: SearchOptions,
    routed: Seq<(usize, u32)>,
    candidates: Seq<(u64, u32)>,
    ranked: Seq<(u64, u32)>,
    results: Seq<(u64, u32)>,
) -> bool {
    let filter = filter_of(options);
    let count = m.partitions.len() as int;
    let pids = nearest_partitions(routed, probes(options.nprobe as int, count));
    &&& routed_by(route, m, eligible(m, filter, count), routed)
    &&& estimated(
        estimate,
        query,
        m.dim,
        passing_in(m, pids, filter, pids.len() as int),
        candidates,
    )
    &&& contenders(exact, restore, m, options, candidates, ranked)
    &&& results == first(ordering::by_distance(ranked), options.k as int)
    &&& ranked.len() <= usize::MAX
    &&& candidates.len() <= usize::MAX
}

/// What a search gives: nothing where nothing is asked for or the index is empty.
pub open spec fn search_outcome<
    F: Fn(&Vec<u32>, u32) -> u32,
    E: Fn(u64, u32, u32) -> u32,
    X: Fn(&Vec<u32>) -> u32,
    R: Fn(u8, u32, u32) -> u32,
>(
    route: F,
    estimate: E,
    exact: X,
    restore: R,
    m: IndexModel,
    query: QueryCode,
    options: SearchOptions,
    results: Seq<(u64, u32)>,
) -> bool {
    if m.raw.len() == 0 || options.k == 0 {
        results.len() == 0
    } else {
        exists|routed: Seq<(usize, u32)>, candidates: Seq<(u64, u32)>, ranked: Seq<(u64, u32)>|
            #[trigger]
            searched(
                route,
                estimate,
                exact,
                restore,
                m,
                query,
                options,
                routed,
                candidates,
                ranked,
                results,
            )
    }
}

/// Searches an index.
///
/// `route` gives the distance from the query to a rotated centroid, `estimate` that to a vector
/// from what its code reads, `exact` that to a vector, and `restore` the number of an SQ8 byte
/// within a range.
pub fn search<
    F: Fn(&Vec<u32>, u32) -> u32,
    E: Fn(u64, u32, u32) -> u32,
    X: Fn(&Vec<u32>) -> u32,
    R: Fn(u8, u32, u32) -> u32,
>(
    index: &IvfRabitqIndex,
    query: &QueryCode,
    options: &SearchOptions,
    route: &F,
    estimate: &E,
    exact: &X,
    restore: &R,
) -> (results: Vec<(u64, u32)>)
    requires
        index.wf(),
        query.fits(index@.dim),
        routes_numbers(*route, index@.dim),
        estimates_numbers(*estimate),
        measures_numbers(*exact, index@.dim),
        forall|c: u8, lo: u32, hi: u32| #[trigger] call_requires(*restore, (c, lo, hi)),
    ensures
        search_outcome(*route, *estimate, *exact, *restore, index@, *query, *options, results@),
{
    if index.is_empty() || options.k == 0 {
        return Vec::new();
    }
    proof {
        index.wf_model();
    }
    let ghost m = index@;
    let filter = parse_filter(options);
    let n: usize = probe_count(options.nprobe, index.num_partitions());
    let pids = select_partitions(index, &filter, n, route);
    let candidates = scan_partitions(index, query, &pids, &filter, options.fastscan, estimate);
    let ghost found = candidates@;
    assert(candidates@.len() == candidates.len());
    let results = rank_candidates(index, options, candidates, exact, restore);
    proof {
        let routed = choose|routed: Seq<(usize, u32)>| #[trigger]
            routed_by(
                *route,
                m,
                eligible(m, filter_view(filter), m.partitions.len() as int),
                routed,
            ) && pids@ == nearest_partitions(routed, n as int);
        let ranked = choose|ranked: Seq<(u64, u32)>| #[trigger]
            contenders(*exact, *restore, m, *options, found, ranked) && results@ == first(
                ordering::by_distance(ranked),
                options.k as int,
            ) && ranked.len() <= usize::MAX;
        assert(searched(
            *route,
            *estimate,
            *exact,
            *restore,
            m,
            *query,
            *options,
            routed,
            found,
            ranked,
            results@,
        ));
    }
    results
}

/// A function makes, of a rotated query of `dim` components, one that routes to partitions.
pub open spec fn gives_routes<F: Fn(&Vec<u32>, u32) -> u32, FM: Fn(&Vec<u32>) -> F>(
    routing: FM,
    dim: int,
) -> bool {
    &&& forall|r: Vec<u32>| r@.len() == dim ==> #[trigger] call_requires(routing, (&r,))
    &&& forall|r: Vec<u32>, f: F|
        r@.len() == dim && #[trigger] call_ensures(routing, (&r,), f) ==> routes_numbers(f, dim)
}

/// A function makes, of the code of a query, one that estimates distances.
pub open spec fn gives_estimates<E: Fn(u64, u32, u32) -> u32, EM: Fn(&QueryCode) -> E>(
    estimating: EM,
) -> bool {
    &&& forall|c: QueryCode| #[trigger] call_requires(estimating, (&c,))
    &&& forall|c: QueryCode, e: E| #[trigger]
        call_ensures(estimating, (&c,), e) ==> estimates_numbers(e)
}

/// A function makes, of a query of `dim` components, one that measures distances.
pub open spec fn gives_measures<X: Fn(&Vec<u32>) -> u32, XM: Fn(&Vec<u32>) -> X>(
    measuring: XM,
    dim: int,
) -> bool {
    &&& forall|q: Vec<u32>| q@.len() == dim ==> #[trigger] call_requires(measuring, (&q,))
    &&& forall|q: Vec<u32>, x: X|
        q@.len() == dim && #[trigger] call_ensures(measuring, (&q,), x) ==> measures_numbers(x, dim)
}

/// What a search works with is that of the query: its code with `query_bits` bits per dimension, and
/// the functions that were made of the query, of the query after the rotation, and of the code.
pub open spec fn prepared<
    R: Fn(&Vec<u32>, &Vec<u32>) -> Vec<u32>,
    C: Fn(&Vec<u32>, u32) -> (u32, u32),
    N: Fn(&Vec<u32>) -> u32,
    S: Fn(u32, u8) -> u32,
    L: Fn(u32, u32, u8) -> u8,
    F: Fn(&Vec<u32>, u32) -> u32,
    E: Fn(u64, u32, u32) -> u32,
    X: Fn(&Vec<u32>) -> u32,
    FM: Fn(&Vec<u32>) -> F,
    EM: Fn(&QueryCode) -> E,
    XM: Fn(&Vec<u32>) -> X,
>(
    rotate: R,
    corrections: C,
    norm: N,
    step: S,
    level: L,
    routing: FM,
    estimating: EM,
    measuring: XM,
    m: IndexModel,
    query: Vec<u32>,
    query_bits: u8,
    code: QueryCode,
    route: F,
    estimate: E,
    exact: X,
) -> bool {
    &&& coded(
        rotate,
        corrections,
        norm,
        step,
        level,
        m.rotation,
        m.coder.epsilon_0,
        query,
        query_bits,
        code,
    )
    &&& exists|rotated: Vec<u32>| #[trigger]
        call_ensures(rotate, (&m.rotation, &query), rotated) && call_ensures(
            routing,
            (&rotated,),
            route,
        )
    &&& call_ensures(estimating, (&code,), estimate)
    &&& call_ensures(measuring, (&query,), exact)
}

/// What a search for a query gives: nothing where nothing is asked for or the index is empty.
pub open spec fn query_outcome<
    R: Fn(&Vec<u32>, &Vec<u32>) -> Vec<u32>,
    C: Fn(&Vec<u32>, u32) -> (u32, u32),
    N: Fn(&Vec<u32>) -> u32,
    S: Fn(u32, u8) -> u32,
    L: Fn(u32, u32, u8) -> u8,
    F: Fn(&Vec<u32>, u32) -> u32,
    E: Fn(u64, u32, u32) -> u32,
    X: Fn(&Vec<u32>) -> u32,
    Z: Fn(u8, u32, u32) -> u32,
    FM: Fn(&Vec<u32>) -> F,
    EM: Fn(&QueryCode) -> E,
    XM: Fn(&Vec<u32>) -> X,
>(
    rotate: R,
    corrections: C,
    norm: N,
    step: S,
    level: L,
    routing: FM,
    estimating: EM,
    measuring: XM,
    restore: Z,
    m: IndexModel,
    query: Vec<u32>,
    options: SearchOptions,
    results: Seq<(u64, u32)>,
) -> bool {
    if m.raw.len() == 0 || options.k == 0 {
        results.len() == 0
    } else {
        exists|code: QueryCode, route: F, estimate: E, exact: X| #[trigger]
            prepared(
                rotate,
                corrections,
                norm,
                step,
                level,
                routing,
                estimating,
                measuring,
                m,
                query,
                options.query_bits,
                code,
                route,
                estimate,
                exact,
            ) && search_outcome(route, estimate, exact, restore, m, code, options, results)
    }
}

/// Searches an index for a query: it is coded with as many bits per dimension as the options say.
///
/// `rotate` to `level` are the arithmetic of codes. `routing` makes, of the rotated query, the
/// function that gives the distance to a rotated centroid; `estimating` makes, of the code, the one
/// that estimates the distance to a vector; and `measuring` makes, of the query, the one that gives
/// the distance to a vector.
pub fn search_query<
    R: Fn(&Vec<u32>, &Vec<u32>) -> Vec<u32>,
    C: Fn(&Vec<u32>, u32) -> (u32, u32),
    N: Fn(&Vec<u32>) -> u32,
    S: Fn(u32, u8) -> u32,
    L: Fn(u32, u32, u8) -> u8,
    F: Fn(&Vec<u32>, u32) -> u32,
    E: Fn(u64, u32, u32) -> u32,
    X: Fn(&Vec<u32>) -> u32,
    Z: Fn(u8, u32, u32) -> u32,
    FM: Fn(&Vec<u32>) -> F,
    EM: Fn(&QueryCode) -> E,
    XM: Fn(&Vec<u32>) -> X,
>(
    index: &IvfRabitqIndex,
    query: &Vec<u32>,
    options: &SearchOptions,
    rotate: &R,
    corrections: &C,
    norm: &N,
    step: &S,
    level: &L,
    routing: &FM,
    estimating: &EM,
    measuring: &XM,
    restore: &Z,
) -> (results: Vec<(u64, u32)>)
    requires
        index.wf(),
        query@.len() == index@.dim,
        index@.raw.len() == 0 || options.k == 0 || options.query_bits == 0 || rabitq::cuts_byte(
            options.query_bits,
        ),
        rabitq::keeps_dim(*rotate),
        forall|r: Vec<u32>, e: u32| #[trigger] call_requires(*corrections, (&r, e)),
        forall|r: Vec<u32>| #[trigger] call_requires(*norm, (&r,)),
        forall|t: u32, l: u8| #[trigger] call_requires(*step, (t, l)),
        forall|v: u32, t: u32, l: u8| #[trigger] call_requires(*level, (v, t, l)),
        gives_routes(*routing, index@.dim),
        gives_estimates(*estimating),
        gives_measures(*measuring, index@.dim),
        forall|c: u8, lo: u32, hi: u32| #[trigger] call_requires(*restore, (c, lo, hi)),
    ensures
        query_outcome(
            *rotate,
            *corrections,
            *norm,
            *step,
            *level,
            *routing,
            *estimating,
            *measuring,
            *restore,
            index@,
            *query,
            *options,
            results@,
        ),
{
    if index.is_empty() || options.k == 0 {
        return Vec::new();
    }
    let code = query_code(
        index,
        query,
        options.query_bits,
        rotate,
        corrections,
        norm,
        step,
        level,
    );
    let rotated = index.quantizer().rotate_vector(query, rotate);
    let route = routing(&rotated);
    let estimate = estimating(&code);
    let exact = measuring(query);
    let results = search(index, &code, options, &route, &estimate, &exact, restore);
    assert(prepared(
        *rotate,
        *corrections,
        *norm,
        *step,
        *level,
        *routing,
        *estimating,
        *measuring,
        index@,
        *query,
        options.query_bits,
        code,
        route,
        estimate,
        exact,
    ));
    results
}

/// The distances of all vectors, by id.
pub open spec fn measured_all<X: Fn(&Vec<u32>) -> u32>(
    exact: X,
    m: IndexModel,
    measured: Seq<(u64, u32)>,
) -> bool {
    &&& measured.len() == m.raw.len()
    &&& forall|i: int|
        0 <= i < measured.len() ==> {
            &&& (#[trigger] measured[i]).0 == i
            &&& call_ensures(exact, (&m.raw[i],), measured[i].1)
        }
}

/// What measuring all vectors gives: the nearest `k`.
pub open spec fn flat_outcome<X: Fn(&Vec<u32>) -> u32>(
    exact: X,
    m: IndexModel,
    k: int,
    results: Seq<(u64, u32)>,
) -> bool {
    exists|measured: Seq<(u64, u32)>| #[trigger]
        measured_all(exact, m, measured) && results == first(ordering::by_distance(measured), k)
}

/// The numbers from 0 up to `n`.
pub open spec fn all_places(n: nat) -> Seq<usize> {
    Seq::new(n, |i: int| i as usize)
}

/// What a search by estimates alone gives.
pub open spec fn estimate_outcome<F: Fn(&Vec<u32>, u32) -> u32, E: Fn(u64, u32, u32) -> u32>(
    route: F,
    estimate: E,
    m: IndexModel,
    query: QueryCode,
    k: int,
    nprobe: int,
    routed: Seq<(usize, u32)>,
    candidates: Seq<(u64, u32)>,
    results: Seq<(u64, u32)>,
) -> bool {
    let pids = nearest_partitions(routed, probes(nprobe, m.partitions.len() as int));
    &&& routed_by(route, m, all_places(m.centroids.len()), routed)
    &&& estimated(
        estimate,
        query,
        m.dim,
        passing_in(m, pids, None, pids.len() as int),
        candidates,
    )
    &&& results == first(ordering::by_distance(candidates), k)
}

impl IvfRabitqIndex {
    /// The nearest `k` vectors by their distances; `exact` gives the distance to a vector.
    pub fn flat_search<X: Fn(&Vec<u32>) -> u32>(&self, k: usize, exact: &X) -> (results: Vec<
        (u64, u32),
    >)
        requires
            measures_all(*exact, self@.raw),
        ensures
            flat_outcome(*exact, self@, k as int, results@),
    {
        let ghost m = self@;
        let vectors = self.raw_vectors();
        let mut measured: Vec<(u64, u32)> = Vec::with_capacity(vectors.len());
        let mut i: usize = 0;
        while i < vectors.len()
            invariant
                i <= vectors@.len(),
                vectors@ == m.raw,
                measured@.len() == i,
                measures_all(*exact, m.raw),
                forall|j: int|
                    0 <= j < i ==> {
                        &&& (#[trigger] measured@[j]).0 == j
                        &&& call_ensures(*exact, (&m.raw[j],), measured@[j].1)
                    },
                ordering::comparable(measured@),
            decreases vectors@.len() - i,
        {
            let d: u32 = exact(&vectors[i]);
            measured.push((i as u64, d));
            i += 1;
        }
        assert(measured_all(*exact, m, measured@));
        let sorted = ordering::sort_by_distance(&measured);
        keep_first(sorted, k)
    }

    /// The nearest `k` vectors by estimated distances, among the `nprobe` nearest partitions.
    pub fn search<F: Fn(&Vec<u32>, u32) -> u32, E: Fn(u64, u32, u32) -> u32>(
        &self,
        query: &QueryCode,
        k: usize,
        nprobe: usize,
        route: &F,
        estimate: &E,
    ) -> (results: Vec<(u64, u32)>)
        requires
            self.wf(),
            query.fits(self@.dim),
            routes_numbers(*route, self@.dim),
            estimates_numbers(*estimate),
        ensures
            exists|routed: Seq<(usize, u32)>, candidates: Seq<(u64, u32)>| #[trigger]
                estimate_outcome(
                    *route,
                    *estimate,
                    self@,
                    *query,
                    k as int,
                    nprobe as int,
                    routed,
                    candidates,
                    results@,
                ),
    {
        proof {
            self.wf_model();
        }
        let ghost m = self@;
        let centroids = self.rotated_centroids();
        let norms = self.rotated_centroid_norms_sq();
        let mut routed: Vec<(usize, u32)> = Vec::with_capacity(centroids.len());
        let mut p: usize = 0;
        while p < centroids.len()
            invariant
                p <= centroids@.len(),
                m.wf(),
                centroids@ == m.rotated_centroids,
                norms@ == m.norms,
                routed@.len() == p,
                routes_numbers(*route, m.dim),
                forall|i: int|
                    0 <= i < p ==> {
                        &&& (#[trigger] routed@[i]).0 == i
                        &&& call_ensures(
                            *route,
                            (&m.rotated_centroids[i], m.norms[i]),
                            routed@[i].1,
                        )
                    },
                ordering::comparable(routed@),
            decreases centroids@.len() - p,
        {
            let d: u32 = route(&centroids[p], norms[p]);
            routed.push((p, d));
            p += 1;
        }
        assert(routed_by(*route, m, all_places(m.centroids.len()), routed@));
        let sorted = ordering::sort_by_distance(&routed);
        let kept = keep_first(sorted, probe_count(nprobe, self.num_partitions()));
        let pids = places_of(&kept);
        proof {
            assert(routed@.len() == routed.len());
            ordering::by_distance_places(routed@);
            assert forall|j: int| 0 <= j < pids@.len() implies #[trigger] pids@[j]
                < m.partitions.len() by {
                assert(pids@[j] == ordering::by_distance(routed@)[j].0);
                let q = ordering::stable_order_of(ordering::distance_keys(routed@))[j] as int;
                assert(ordering::by_distance(routed@)[j] == routed@[q]);
            }
        }
        let candidates = scan_partitions(self, query, &pids, &None, true, estimate);
        let ranked = ordering::sort_by_distance(&candidates);
        let results = keep_first(ranked, k);
        assert(estimate_outcome(
            *route,
            *estimate,
            m,
            *query,
            k as int,
            nprobe as int,
            routed@,
            candidates@,
            results@,
        ));
        results
    }
}

} // verus!
