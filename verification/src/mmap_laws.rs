//! What holds of an index that is searched in its file: it is the index that was saved, and damage
//! to the file is found when it is opened.

use crate::blocks;
use crate::checksum;
use crate::chunked_storage;
use crate::ieee;
use crate::index_ivf_rq::{IndexModel, RabitqCode};
use crate::index_ivf_rq;
use crate::little_endian;
use crate::mmap_index::MappedModel;
use crate::mmap_index;
use crate::ordering;
use crate::rabitq;
use crate::search::{QueryCode, Remeasure, SearchOptions};
use crate::search;
use crate::search_pairs;
use crate::storage;
use crate::storage_format;
use crate::storage_laws;
use crate::storage_save;
use vstd::prelude::*;

verus! {

/// A part that is found by its section is found by its place, where the place is within the file.
proof fn same_part(f: Seq<u8>, at: (nat, nat), part: Seq<u8>)
    requires
        storage::section(f, at) == Some(part),
        at.1 == part.len(),
        at.0 + at.1 <= f.len(),
    ensures
        mmap_index::part_at(f, at) == Some(part),
{
    if at.1 == 0 {
        assert(f.subrange(at.0 as int, (at.0 + at.1) as int) =~= part);
    }
}

/// The parts of a saved file that are read when it is opened.
proof fn saved_parts(m: IndexModel, json: Seq<u8>)
    requires
        storage_laws::storable(m, json),
    ensures
        ({
            let f = storage_save::index_file(m, json);
            let h = storage_format::header_of(f);
            let at = storage_save::layout_of(m, json);
            &&& mmap_index::part_at(f, h.rotation) == Some(storage_save::rotation_part(m))
            &&& mmap_index::part_at(f, h.centroids) == Some(storage_save::centroid_part(m))
            &&& mmap_index::part_at(f, h.partition_meta) == Some(
                storage_save::meta_part(m, at.centroids),
            )
            &&& mmap_index::part_at(f, h.raw) == Some(storage_save::raw_part(m))
        }),
{
    let f = storage_save::index_file(m, json);
    let h = storage_format::header_of(f);
    let at = storage_save::layout_of(m, json);
    storage_laws::file_sections(m, json);
    same_part(f, h.rotation, storage_save::rotation_part(m));
    same_part(f, h.centroids, storage_save::centroid_part(m));
    same_part(f, h.partition_meta, storage_save::meta_part(m, at.centroids));
    same_part(f, h.raw, storage_save::raw_part(m));
}

/// A note on a partition of a saved file is the same whichever way the file is read.
proof fn same_metas(m: IndexModel, json: Seq<u8>, p: int)
    requires
        storage_laws::storable(m, json),
        0 <= p < m.partitions.len(),
    ensures
        ({
            let f = storage_save::index_file(m, json);
            mmap_index::mapped_meta(f, p) == storage::partition_meta(
                f,
                storage_format::header_of(f),
                p,
            )
        }),
{
    saved_parts(m, json);
    storage_laws::file_sections(m, json);
}

/// The file of an index opens.
proof fn saved_has_no_fault(m: IndexModel, json: Seq<u8>)
    requires
        storage_laws::storable(m, json),
    ensures
        mmap_index::open_fault(storage_save::index_file(m, json)) is None,
{
    let f = storage_save::index_file(m, json);
    let h = storage_format::header_of(f);
    let at = storage_save::layout_of(m, json);
    storage_laws::file_sections(m, json);
    storage_laws::saved_checksum_holds(m, json);
    saved_parts(m, json);
    blocks::words_round_trip(m.rotation@);
    storage_laws::rows_round_trip(m.centroids, m.dim);
    storage_laws::metas_round_trip(m.partitions, at.centroids);
    assert(mmap_index::rotation_fault(f) is None);
    assert(mmap_index::centroid_fault(f) is None);
    assert forall|p: int| 0 <= p < h.num_partitions implies mmap_index::fits(
        #[trigger] mmap_index::mapped_meta(f, p),
        h.dim,
    ) by {
        same_metas(m, json, p);
        storage_laws::partition_found(m, json, p);
        assert(storage::entries_fit(f, h, p));
    }
    assert(mmap_index::meta_fault(f) is None);
    assert(h.magic == storage_format::MAGIC@);
    assert(mmap_index::head_fault(f) is None);
    assert(mmap_index::stream_fault(f) is None);
}

/// The vectors of a saved index are read from its file by their ids.
#[verifier::rlimit(40)]
#[verifier::spinoff_prover]
proof fn saved_vector(m: IndexModel, json: Seq<u8>, id: u64)
    requires
        storage_laws::storable(m, json),
        id < m.raw.len(),
    ensures
        mmap_index::mapped_vector(storage_save::index_file(m, json), id) == Some(m.raw[id as int]@),
{
    let f = storage_save::index_file(m, json);
    let h = storage_format::header_of(f);
    storage_laws::file_sections(m, json);
    saved_parts(m, json);
    let all = storage_save::row_bytes(m.raw);
    let part = storage_save::raw_part(m);
    let size = 4 * m.dim;
    assert forall|i: int| 0 <= i < all.len() implies (#[trigger] all[i]).len() == size by {
        blocks::words_round_trip(m.raw[i]@);
        assert(m.raw[i]@.len() == m.dim);
    }
    blocks::joined_len(all, size);
    blocks::joined_at(all, size, id as int);
    blocks::words_round_trip(m.raw[id as int]@);
    assert(id * h.dim * 4 == id * size) by (nonlinear_arith)
        requires
            size == 4 * h.dim,
    ;
    assert(0 <= id * size && id * size + size <= m.raw.len() * size) by (nonlinear_arith)
        requires
            0 <= id < m.raw.len(),
            size >= 0,
    ;
    let start = h.raw.0 + id * size;
    assert(mmap_index::vector_place(h, id) == (start as nat, size as nat));
    assert(f.subrange(start, start + size) =~= part.subrange(id * size, id * size + size));
    assert(mmap_index::part_at(f, (start as nat, size as nat)) == Some(
        part.subrange(id * size, id * size + size),
    ));
}

/// What was saved is what is searched: the file of an index opens, and every partition and every
/// vector that is read from it is that of the index.
pub proof fn saved_index_opens(m: IndexModel, json: Seq<u8>)
    requires
        storage_laws::storable(m, json),
    ensures
        ({
            let f = storage_save::index_file(m, json);
            let h = storage_format::header_of(f);
            &&& mmap_index::open_fault(f) is None
            &&& h.dim == m.dim
            &&& h.num_vectors == m.raw.len()
            &&& h.num_partitions == m.partitions.len()
            &&& forall|p: int|
                0 <= p < m.partitions.len() ==> #[trigger] mmap_index::mapped_entries(f, p)
                    == m.partitions[p]
            &&& forall|id: u64|
                id < m.raw.len() ==> #[trigger] mmap_index::mapped_vector(f, id) == Some(
                    m.raw[id as int]@,
                )
        }),
{
    let f = storage_save::index_file(m, json);
    let h = storage_format::header_of(f);
    storage_laws::file_sections(m, json);
    saved_has_no_fault(m, json);
    assert forall|p: int| 0 <= p < m.partitions.len() implies #[trigger] mmap_index::mapped_entries(
        f,
        p,
    ) == m.partitions[p] by {
        same_metas(m, json, p);
        storage_laws::partition_found(m, json, p);
        let meta = mmap_index::mapped_meta(f, p);
        if meta.len == 0 {
            assert(meta.count * storage::entry_size(h.dim) <= 0);
            assert(meta.count == 0) by (nonlinear_arith)
                requires
                    meta.count * storage::entry_size(h.dim) <= 0,
                    storage::entry_size(h.dim) >= 1,
                    meta.count >= 0,
            ;
            assert(mmap_index::mapped_entries(f, p) =~= m.partitions[p]);
        }
    }
    assert forall|id: u64| id < m.raw.len() implies #[trigger] mmap_index::mapped_vector(f, id)
        == Some(m.raw[id as int]@) by {
        saved_vector(m, json, id);
    }
}

/// Without a filter no partition is ruled out.
proof fn all_eligible(m: IndexModel, n: int)
    requires
        0 <= n <= usize::MAX,
    ensures
        search::eligible(m, None, n) == search::all_places(n as nat),
    decreases n,
{
    if n > 0 {
        all_eligible(m, n - 1);
        assert(search::all_places(n as nat) =~= search::all_places((n - 1) as nat).push(
            (n - 1) as usize,
        ));
    } else {
        assert(search::eligible(m, None, n) =~= search::all_places(n as nat));
    }
}

/// Without a filter every entry passes.
proof fn all_pass(m: IndexModel, entries: Seq<(u64, rabitq::Code)>, n: int)
    requires
        0 <= n <= entries.len(),
    ensures
        search::passing(m, entries, None, n) == entries.take(n),
    decreases n,
{
    if n > 0 {
        all_pass(m, entries, n - 1);
        assert(entries.take(n) =~= entries.take(n - 1).push(entries[n - 1]));
    } else {
        assert(search::passing(m, entries, None, n) =~= entries.take(n));
    }
}

/// Without a filter the entries of partitions that pass are all their entries.
proof fn all_pass_in(
    m: IndexModel,
    pids: Seq<usize>,
    parts: Seq<Seq<(u64, rabitq::Code)>>,
    n: int,
)
    requires
        0 <= n <= pids.len(),
        parts.len() == pids.len(),
        forall|i: int| 0 <= i < pids.len() ==> #[trigger] parts[i] == m.partitions[pids[i] as int],
    ensures
        search::passing_in(m, pids, None, n) == parts.take(n).flatten_alt(),
    decreases n,
{
    let front = parts.take(n);
    if n > 0 {
        all_pass_in(m, pids, parts, n - 1);
        let entries = parts[n - 1];
        all_pass(m, entries, entries.len() as int);
        assert(entries.take(entries.len() as int) =~= entries);
        assert(front.drop_last() =~= parts.take(n - 1));
        assert(front.last() == entries);
    } else {
        assert(search::passing_in(m, pids, None, n) =~= front.flatten_alt());
    }
}

/// All bytes of the file of an index can be read, what was read when it was opened describes it,
/// and the rotated centroids of both were made in the same way.
pub open spec fn serves_built<
    F: Fn(u64, usize, usize) -> Option<Vec<u8>>,
    T: Fn(&Vec<u32>, &Vec<u32>) -> Vec<u32>,
    N: Fn(&Vec<u32>) -> u32,
>(fetch: F, rotate: T, norm: N, m: IndexModel, json: Seq<u8>, mapped: MappedModel) -> bool {
    let f = storage_save::index_file(m, json);
    &&& chunked_storage::serves(fetch, f, mapped.layout)
    &&& mapped.describes(f)
    &&& !mmap_index::can_fail_at_all(fetch, mapped.layout)
    &&& index_ivf_rq::all_rotated(
        rotate,
        mapped.rotation,
        mapped.centroids,
        mapped.rotated_centroids,
    )
    &&& index_ivf_rq::all_measured(norm, mapped.rotated_centroids, mapped.norms)
    &&& index_ivf_rq::all_rotated(rotate, m.rotation, m.centroids, m.rotated_centroids)
    &&& index_ivf_rq::all_measured(norm, m.rotated_centroids, m.norms)
}

/// The rotated centroids of an index in its file have the numbers of those in memory.
proof fn same_rotated_centroids<
    F: Fn(u64, usize, usize) -> Option<Vec<u8>>,
    T: Fn(&Vec<u32>, &Vec<u32>) -> Vec<u32>,
    N: Fn(&Vec<u32>) -> u32,
>(fetch: F, rotate: T, norm: N, m: IndexModel, json: Seq<u8>, mapped: MappedModel)
    requires
        storage_laws::storable(m, json),
        serves_built(fetch, rotate, norm, m, json, mapped),
        search_pairs::one_rotation(rotate),
        search_pairs::one_measure(norm),
    ensures
        mapped.rotated_centroids.len() == m.rotated_centroids.len(),
        mapped.norms == m.norms,
        forall|p: int|
            0 <= p < m.rotated_centroids.len() ==> (#[trigger] mapped.rotated_centroids[p])@
                == m.rotated_centroids[p]@,
{
    let f = storage_save::index_file(m, json);
    let h = storage_format::header_of(f);
    storage_laws::file_sections(m, json);
    saved_parts(m, json);
    blocks::words_round_trip(m.rotation@);
    storage_laws::rows_round_trip(m.centroids, m.dim);
    assert(mapped.rotation@ == m.rotation@);
    assert(storage::row_views(mapped.centroids) == storage::row_views(m.centroids));
    assert(storage::row_views(mapped.centroids).len() == mapped.centroids.len());
    assert forall|p: int| 0 <= p < m.rotated_centroids.len() implies (
    #[trigger] mapped.rotated_centroids[p])@ == m.rotated_centroids[p]@ && mapped.norms[p]
        == m.norms[p] by {
        assert(storage::row_views(mapped.centroids)[p] == storage::row_views(m.centroids)[p]);
        let (v, w) = (mapped.centroids[p], m.centroids[p]);
        let (x, y) = (mapped.rotated_centroids[p], m.rotated_centroids[p]);
        assert(call_ensures(rotate, (&mapped.rotation, &v), x));
        assert(call_ensures(rotate, (&m.rotation, &w), y));
        assert(call_ensures(norm, (&x,), mapped.norms[p]));
        assert(call_ensures(norm, (&y,), m.norms[p]));
    }
    assert(mapped.norms =~= m.norms);
}

/// Searching an index in its file and searching it in memory give the same, where all parts of the
/// file can be read and the search in memory has no filter and measures its best candidates by
/// their vectors, ten for each result.
pub proof fn mapped_search_agrees<
    F: Fn(u64, usize, usize) -> Option<Vec<u8>>,
    T: Fn(&Vec<u32>, &Vec<u32>) -> Vec<u32>,
    N: Fn(&Vec<u32>) -> u32,
    G: Fn(&Vec<u32>, u32) -> u32,
    E: Fn(u64, u32, u32) -> u32,
    X: Fn(&Vec<u32>) -> u32,
    R: Fn(u8, u32, u32) -> u32,
>(
    fetch: F,
    rotate: T,
    norm: N,
    route: G,
    estimate: E,
    exact: X,
    restore: R,
    m: IndexModel,
    json: Seq<u8>,
    mapped: MappedModel,
    query: RabitqCode,
    options: SearchOptions,
    in_file: Seq<(u64, u32)>,
    in_memory: Seq<(u64, u32)>,
)
    requires
        storage_laws::storable(m, json),
        serves_built(fetch, rotate, norm, m, json, mapped),
        search_pairs::one_rotation(rotate),
        search_pairs::one_measure(norm),
        search_pairs::one_result(route, estimate, exact, restore),
        options.refine,
        options.refine_k == 10 * options.k,
        !options.sq8_refine || m.sq8_dirty,
        search::filter_of(options) is None,
        mmap_index::mapped_outcome(
            fetch,
            route,
            estimate,
            exact,
            mapped,
            query,
            options.k as int,
            options.nprobe as int,
            in_file,
        ),
        search::search_outcome(
            route,
            estimate,
            exact,
            restore,
            m,
            QueryCode::Signs(query),
            options,
            in_memory,
        ),
    ensures
        in_file == in_memory,
{
    let f = storage_save::index_file(m, json);
    let (k, nprobe) = (options.k as int, options.nprobe as int);
    let code = QueryCode::Signs(query);
    saved_index_opens(m, json);
    same_rotated_centroids(fetch, rotate, norm, m, json, mapped);
    if m.raw.len() == 0 || k == 0 {
        assert(in_file =~= in_memory);
    } else {
        let (routed, parts, candidates, ranked) = choose|
            routed: Seq<(usize, u32)>,
            parts: Seq<Seq<(u64, rabitq::Code)>>,
            candidates: Seq<(u64, u32)>,
            ranked: Seq<(u64, u32)>,
        | #[trigger]
            mmap_index::mapped_searched(
                fetch,
                route,
                estimate,
                exact,
                mapped,
                query,
                k,
                nprobe,
                routed,
                parts,
                candidates,
                ranked,
                in_file,
            );
        let (r, c, a) = choose|
            routed: Seq<(usize, u32)>,
            candidates: Seq<(u64, u32)>,
            ranked: Seq<(u64, u32)>,
        | #[trigger]
            search::searched(
                route,
                estimate,
                exact,
                restore,
                m,
                code,
                options,
                routed,
                candidates,
                ranked,
                in_memory,
            );
        let count = m.partitions.len() as int;
        all_eligible(m, count);
        assert forall|i: int| 0 <= i < r.len() implies r[i] == routed[i] by {
            let (v, w) = (mapped.rotated_centroids[i], m.rotated_centroids[i]);
            let n = m.norms[i];
            assert(r[i].0 == i && routed[i].0 == i);
            assert(call_ensures(route, (&w, n), r[i].1));
            assert(call_ensures(route, (&v, n), routed[i].1));
        }
        assert(r =~= routed);
        let pids = search::nearest_partitions(routed, search::probes(nprobe, count));
        partitions_read(
            fetch,
            m.partitions,
            f,
            mapped,
            routed,
            search::probes(nprobe, count),
            parts,
        );
        all_pass_in(m, pids, parts, pids.len() as int);
        assert(parts.take(pids.len() as int) =~= parts);
        search_pairs::same_estimates(estimate, code, m.dim, parts.flatten_alt(), candidates, c);
        let best = search::first(
            ordering::by_distance(c),
            mmap_index::measure_count(k, nprobe, count, c.len() as int),
        );
        assert(search::remeasured(Remeasure::Raw, exact, restore, m, best, a));
        assert forall|i: int| 0 <= i < best.len() implies ranked[i] == a[i] by {
            same_distance(fetch, exact, restore, m, json, mapped, best[i], ranked[i], a[i]);
        }
        assert(ranked =~= a);
    }
}

/// The partitions that a search reads from the file are those of the index.
proof fn partitions_read<F: Fn(u64, usize, usize) -> Option<Vec<u8>>>(
    fetch: F,
    partitions: Seq<Seq<(u64, rabitq::Code)>>,
    f: Seq<u8>,
    mapped: MappedModel,
    routed: Seq<(usize, u32)>,
    n: int,
    parts: Seq<Seq<(u64, rabitq::Code)>>,
)
    requires
        forall|p: int|
            0 <= p < partitions.len() ==> #[trigger] mmap_index::mapped_entries(f, p)
                == partitions[p],
        chunked_storage::serves(fetch, f, mapped.layout),
        mapped.describes(f),
        !mmap_index::can_fail_at_all(fetch, mapped.layout),
        0 <= n,
        partitions.len() <= usize::MAX,
        routed.len() == partitions.len(),
        forall|i: int| 0 <= i < routed.len() ==> (#[trigger] routed[i]).0 == i,
        parts.len() == search::nearest_partitions(routed, n).len(),
        forall|i: int|
            0 <= i < parts.len() ==> mmap_index::entries_read(
                fetch,
                mapped,
                search::nearest_partitions(routed, n)[i] as int,
                #[trigger] parts[i],
            ),
    ensures
        forall|i: int|
            0 <= i < parts.len() ==> #[trigger] parts[i]
                == partitions[search::nearest_partitions(routed, n)[i] as int],
{
    let pids = search::nearest_partitions(routed, n);
    ordering::by_distance_places(routed);
    assert forall|i: int| 0 <= i < parts.len() implies #[trigger] parts[i]
        == partitions[pids[i] as int] by {
        assert(mmap_index::entries_read(fetch, mapped, pids[i] as int, parts[i]));
        let meta = mapped.metas[pids[i] as int];
        if mmap_index::can_fail_in(fetch, mapped.layout, (meta.offset, meta.len)) {
            mmap_index::failing_in_a_part(fetch, mapped.layout, (meta.offset, meta.len));
        }
        let q = ordering::stable_order_of(ordering::distance_keys(routed))[i] as int;
        assert(ordering::by_distance(routed)[i] == routed[q]);
        assert(pids[i] == q);
        assert(mmap_index::mapped_entries(f, pids[i] as int) == partitions[pids[i] as int]);
    }
}

/// A candidate has one distance, whether its vector is read from the file or from memory.
proof fn same_distance<
    F: Fn(u64, usize, usize) -> Option<Vec<u8>>,
    X: Fn(&Vec<u32>) -> u32,
    R: Fn(u8, u32, u32) -> u32,
>(
    fetch: F,
    exact: X,
    restore: R,
    m: IndexModel,
    json: Seq<u8>,
    mapped: MappedModel,
    before: (u64, u32),
    in_file: (u64, u32),
    in_memory: (u64, u32),
)
    requires
        storage_laws::storable(m, json),
        chunked_storage::serves(fetch, storage_save::index_file(m, json), mapped.layout),
        mapped.describes(storage_save::index_file(m, json)),
        !mmap_index::can_fail_at_all(fetch, mapped.layout),
        search_pairs::one_measure(exact),
        mmap_index::measured_one(fetch, exact, mapped, before, in_file),
        search::remeasured_one(Remeasure::Raw, exact, restore, m, before, in_memory),
    ensures
        in_file == in_memory,
{
    let f = storage_save::index_file(m, json);
    saved_index_opens(m, json);
    let v = choose|v: Option<Vec<u32>>| #[trigger]
        mmap_index::vector_read(fetch, mapped, before.0, v) && match v {
            Some(v) => call_ensures(exact, (&v,), in_file.1),
            None => in_file.1 == ieee::SINGLE_MAX,
        };
    let place = mmap_index::vector_place(mapped.header, before.0);
    if mmap_index::can_fail_in(fetch, mapped.layout, place) {
        mmap_index::failing_in_a_part(fetch, mapped.layout, place);
    }
    assert(mmap_index::vector_view(v) == mmap_index::mapped_vector(f, before.0));
    if before.0 < m.raw.len() {
        let w = m.raw[before.0 as int];
        assert(v->0@ == w@);
        assert(call_ensures(exact, (&v->0,), in_file.1));
        assert(call_ensures(exact, (&w,), in_memory.1));
    }
}

/// Damage is found when the file is opened: where one byte behind the header of a file with a sound
/// checksum is changed, the file does not open.
pub proof fn damage_is_found_on_opening(f: Seq<u8>, i: int, byte: u8)
    requires
        mmap_index::stream_fault(f) is None,
        148 <= i < f.len(),
        byte != f[i],
    ensures
        mmap_index::open_fault(f.update(i, byte)) is Some,
{
    let c = f.update(i, byte);
    let at = storage_format::header_of(f).manifest.0 as int;
    storage_laws::same_header(f, c);
    let before = storage::checked_contents(f, at);
    let after = storage::checked_contents(c, at);
    let (x, y) = (f.subrange(at + 8, at + 12), c.subrange(at + 8, at + 12));
    if at + 8 <= i < at + 12 {
        assert(before =~= after);
        little_endian::le_bytes_of_value(x);
        little_endian::le_bytes_of_value(y);
        assert(x[i - at - 8] != y[i - at - 8]);
    } else {
        assert(x =~= y);
        checksum::crc_detects_changed_byte(before, i - 148, byte);
        assert(after =~= before.update(i - 148, byte));
    }
    assert(mmap_index::stream_fault(c) is Some);
}

} // verus!
