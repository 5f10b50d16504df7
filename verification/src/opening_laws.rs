//! Which files can be searched where they lie, and what is read from them.

use crate::blocks;
use crate::format_laws;
use crate::index_laws;
use crate::mmap_index::MappedModel;
use crate::mmap_index;
use crate::protocol_laws;
use crate::rabitq::RabitqCode;
use crate::rabitq;
use crate::storage_format;
use vstd::prelude::*;

verus! {

/// The section that the header names at `at` lies in the file.
pub open spec fn lies_whole(f: Seq<u8>, at: int) -> bool {
    protocol_laws::eight(f, at) + protocol_laws::eight(f, at + 8) <= f.len()
}

/// The entries of a partition take no more room than the partition has.
pub open spec fn entries_have_room(f: Seq<u8>, p: int) -> bool {
    format_laws::table_number(f, p, 2) * (16 + protocol_laws::four(f, 12) / 8)
        <= format_laws::table_number(f, p, 1)
}

/// A file can be opened: it starts with the letters VDBRQIDX and version 1, its checksum is right, its
/// dimensions come in words of 64 bits with a square rotation, and the rotation, the centroids and the
/// table of partitions lie in it.
pub open spec fn can_be_opened(f: Seq<u8>) -> bool {
    let dim = protocol_laws::four(f, 12);
    let partitions = protocol_laws::four(f, 16);
    &&& f.len() >= 148
    &&& f[0] == 0x56
    &&& f[1] == 0x44
    &&& f[2] == 0x42
    &&& f[3] == 0x52
    &&& f[4] == 0x51
    &&& f[5] == 0x49
    &&& f[6] == 0x44
    &&& f[7] == 0x58
    &&& protocol_laws::four(f, 8) == 1
    &&& protocol_laws::eight(f, 132) + 12 <= f.len()
    &&& format_laws::checksum_is_right(f)
    &&& dim % 64 == 0
    &&& lies_whole(f, 36)
    &&& protocol_laws::eight(f, 44) == 4 * (dim * dim)
    &&& lies_whole(f, 52)
    &&& protocol_laws::eight(f, 60) % 4 == 0
    &&& partitions * dim <= protocol_laws::eight(f, 60) / 4
    &&& lies_whole(f, 68)
    &&& 24 * partitions <= protocol_laws::eight(f, 76)
    &&& forall|p: int| 0 <= p < partitions ==> #[trigger] entries_have_room(f, p)
    &&& protocol_laws::eight(f, 20) <= usize::MAX
}

proof fn table_is_read(f: Seq<u8>, p: int)
    requires
        f.len() >= 148,
        lies_whole(f, 68),
        24 * protocol_laws::four(f, 16) <= protocol_laws::eight(f, 76),
        0 <= p < protocol_laws::four(f, 16),
    ensures
        ({
            let meta = mmap_index::mapped_meta(f, p);
            &&& meta.offset == format_laws::table_number(f, p, 0)
            &&& meta.len == format_laws::table_number(f, p, 1)
            &&& meta.count == format_laws::table_number(f, p, 2)
        }),
{
    format_laws::headers_are_read(f);
    let h = storage_format::header_of(f);
    let at = h.partition_meta.0 as int;
    let s = mmap_index::part_at(f, h.partition_meta)->0;
    let i = 24 * p;
    assert(s.subrange(i, i + 8) =~= f.subrange(at + i, at + i + 8));
    assert(s.subrange(i + 8, i + 16) =~= f.subrange(at + i + 8, at + i + 16));
    assert(s.subrange(i + 16, i + 24) =~= f.subrange(at + i + 16, at + i + 24));
    protocol_laws::longs_are_little_endian(f, at + i);
    protocol_laws::longs_are_little_endian(f, at + i + 8);
    protocol_laws::longs_are_little_endian(f, at + i + 16);
}

proof fn table_has_room(f: Seq<u8>)
    requires
        f.len() >= 148,
        lies_whole(f, 68),
        24 * protocol_laws::four(f, 16) <= protocol_laws::eight(f, 76),
    ensures
        ({
            let h = storage_format::header_of(f);
            (forall|p: int|
                0 <= p < protocol_laws::four(f, 16) ==> #[trigger] entries_have_room(f, p)) <==> (
            forall|p: int|
                0 <= p < h.num_partitions ==> mmap_index::fits(
                    #[trigger] mmap_index::mapped_meta(f, p),
                    h.dim,
                ))
        }),
{
    format_laws::headers_are_read(f);
    let h = storage_format::header_of(f);
    assert forall|p: int| 0 <= p < h.num_partitions implies (entries_have_room(f, p)
        <==> mmap_index::fits(#[trigger] mmap_index::mapped_meta(f, p), h.dim)) by {
        table_is_read(f, p);
        assert(mmap_index::mapped_meta(f, p).count * crate::storage::entry_size(h.dim)
            == format_laws::table_number(f, p, 2) * (16 + protocol_laws::four(f, 12) / 8));
    }
    if forall|p: int|
        0 <= p < h.num_partitions ==> mmap_index::fits(
            #[trigger] mmap_index::mapped_meta(f, p),
            h.dim,
        ) {
        assert forall|p: int| 0 <= p < protocol_laws::four(f, 16) implies #[trigger] entries_have_room(
            f,
            p,
        ) by {
            assert(mmap_index::fits(mmap_index::mapped_meta(f, p), h.dim));
        }
    }
    if forall|p: int| 0 <= p < protocol_laws::four(f, 16) ==> #[trigger] entries_have_room(f, p) {
        assert forall|p: int| 0 <= p < h.num_partitions implies mmap_index::fits(
            #[trigger] mmap_index::mapped_meta(f, p),
            h.dim,
        ) by {
            assert(entries_have_room(f, p));
        }
    }
}

/// A file is opened exactly where it can be.
pub proof fn files_are_opened(f: Seq<u8>)
    ensures
        mmap_index::open_fault(f) is None <==> can_be_opened(f),
{
    if f.len() >= 148 {
        format_laws::headers_are_read(f);
        format_laws::magic_is_spelled(f);
        if protocol_laws::eight(f, 132) + 12 <= f.len() {
            format_laws::checksum_is_checked(f);
        }
        if lies_whole(f, 68) && 24 * protocol_laws::four(f, 16) <= protocol_laws::eight(f, 76) {
            table_has_room(f);
        }
    }
}

/// A vector is read from its place among the vectors, and from nowhere where it does not lie in the
/// file.
pub proof fn vectors_are_read(f: Seq<u8>, id: u64)
    requires
        f.len() >= 148,
    ensures
        ({
            let dim = protocol_laws::four(f, 12);
            let from = protocol_laws::eight(f, 100) + 4 * (id * dim);
            let v = mmap_index::mapped_vector(f, id);
            &&& v is Some <==> id < protocol_laws::eight(f, 20) && from + 4 * dim <= f.len()
            &&& v is Some ==> v->0.len() == dim
            &&& v is Some ==> forall|d: int|
                0 <= d < dim ==> #[trigger] v->0[d] == protocol_laws::four(f, from + 4 * d)
        }),
{
    format_laws::headers_are_read(f);
    let h = storage_format::header_of(f);
    let dim = protocol_laws::four(f, 12);
    let from = protocol_laws::eight(f, 100) + 4 * (id * dim);
    assert(id * h.dim * 4 == 4 * (id * dim) && 0 <= id * dim) by (nonlinear_arith)
        requires
            h.dim == dim,
    ;
    let place = mmap_index::vector_place(h, id);
    assert(place.0 == from && place.1 == 4 * dim);
    let v = mmap_index::mapped_vector(f, id);
    if v is Some {
        let s = mmap_index::part_at(f, place)->0;
        assert forall|d: int| 0 <= d < dim implies #[trigger] v->0[d] == protocol_laws::four(
            f,
            from + 4 * d,
        ) by {
            assert(v->0 == blocks::bytes_to_words(s));
            assert(s.subrange(4 * d, 4 * d + 4) =~= f.subrange(from + 4 * d, from + 4 * d + 4));
            protocol_laws::words_are_little_endian(f, from + 4 * d);
        }
    }
}

/// A query of a file is looked for by the signs of the rotated query. Partitions are ranked by the
/// rotated query, entries are estimated by the code, and vectors are measured by the query itself.
pub proof fn mapped_queries_mean<
    F: Fn(u64, usize, usize) -> Option<Vec<u8>>,
    R: Fn(&Vec<u32>, &Vec<u32>) -> Vec<u32>,
    C: Fn(&Vec<u32>, u32) -> (u32, u32),
    G: Fn(&Vec<u32>, u32) -> u32,
    E: Fn(u64, u32, u32) -> u32,
    X: Fn(&Vec<u32>) -> u32,
    GM: Fn(&Vec<u32>) -> G,
    EM: Fn(&RabitqCode) -> E,
    XM: Fn(&Vec<u32>) -> X,
>(
    fetch: F,
    rotate: R,
    corrections: C,
    routing: GM,
    estimating: EM,
    measuring: XM,
    m: MappedModel,
    query: Vec<u32>,
    k: int,
    nprobe: int,
    results: Seq<(u64, u32)>,
)
    requires
        m.wf(),
        query@.len() == m.header.dim,
        rabitq::keeps_dim(rotate),
        m.header.num_vectors > 0,
        k > 0,
        mmap_index::mapped_query_outcome(
            fetch,
            rotate,
            corrections,
            routing,
            estimating,
            measuring,
            m,
            query,
            k,
            nprobe,
            results,
        ),
    ensures
        exists|code: RabitqCode, rotated: Vec<u32>, route: G, estimate: E, exact: X|
            {
                &&& index_laws::is_code_of(
                    rotate,
                    corrections,
                    m.rotation,
                    m.coder.epsilon_0,
                    query,
                    code@,
                )
                &&& #[trigger] call_ensures(rotate, (&m.rotation, &query), rotated)
                &&& #[trigger] call_ensures(routing, (&rotated,), route)
                &&& #[trigger] call_ensures(estimating, (&code,), estimate)
                &&& #[trigger] call_ensures(measuring, (&query,), exact)
                &&& mmap_index::mapped_outcome(
                    fetch,
                    route,
                    estimate,
                    exact,
                    m,
                    code,
                    k,
                    nprobe,
                    results,
                )
            },
{
    let (code, route, estimate, exact) = choose|
        code: RabitqCode,
        route: G,
        estimate: E,
        exact: X,
    | #[trigger]
        mmap_index::mapped_prepared(
            rotate,
            corrections,
            routing,
            estimating,
            measuring,
            m,
            query,
            code,
            route,
            estimate,
            exact,
        ) && mmap_index::mapped_outcome(
            fetch,
            route,
            estimate,
            exact,
            m,
            code,
            k,
            nprobe,
            results,
        );
    let rotated = choose|rotated: Vec<u32>|
        {
            &&& #[trigger] call_ensures(rotate, (&m.rotation, &query), rotated)
            &&& rabitq::holds_signs(code@.bits, rotated@)
            &&& call_ensures(
                corrections,
                (&rotated, m.coder.epsilon_0),
                (code@.alpha, code@.beta),
            )
            &&& call_ensures(routing, (&rotated,), route)
        };
    assert(m.header.dim * m.header.dim == query@.len() * query@.len());
    assert(rabitq::encoded_by(
        rotate,
        corrections,
        m.rotation,
        m.coder.epsilon_0,
        query,
        code@,
    ));
    index_laws::codes_hold_signs(
        rotate,
        corrections,
        m.rotation,
        m.coder.epsilon_0,
        query,
        code@,
    );
    assert(call_ensures(rotate, (&m.rotation, &query), rotated));
    assert(call_ensures(routing, (&rotated,), route));
    assert(call_ensures(estimating, (&code,), estimate));
    assert(call_ensures(measuring, (&query,), exact));
}

} // verus!
