//! What an index holds after vectors were added to it and after it was built.

use crate::bit_laws;
use crate::clustering;
use crate::clustering::{Pick, Round};
use crate::clustering_laws;
use crate::ieee;
use crate::index_ivf_rq::{IndexModel, Payload};
use crate::index_ivf_rq;
use crate::number_laws;
use crate::partition_stats;
use crate::partitioning;
use crate::payload;
use crate::rabitq;
use crate::sq8;
use vstd::prelude::*;

verus! {

/// A code is that of a vector: the signs of the rotated vector, one bit each, and its corrections.
pub open spec fn is_code_of<
    R: Fn(&Vec<u32>, &Vec<u32>) -> Vec<u32>,
    C: Fn(&Vec<u32>, u32) -> (u32, u32),
>(
    rotate: R,
    corrections: C,
    rotation: Vec<u32>,
    epsilon_0: u32,
    vector: Vec<u32>,
    code: rabitq::Code,
) -> bool {
    exists|rotated: Vec<u32>|
        {
            &&& #[trigger] call_ensures(rotate, (&rotation, &vector), rotated)
            &&& 8 * code.bits.len() == rotated@.len()
            &&& forall|d: int|
                0 <= d < rotated@.len() ==> (bit_laws::code_bit(code.bits, d) == 1
                    <==> !ieee::single_nan(#[trigger] rotated@[d]) && number_laws::single_value(
                    rotated@[d],
                ) >= 0)
            &&& call_ensures(corrections, (&rotated, epsilon_0), (code.alpha, code.beta))
        }
}

/// Codes are what they should be.
pub proof fn codes_hold_signs<
    R: Fn(&Vec<u32>, &Vec<u32>) -> Vec<u32>,
    C: Fn(&Vec<u32>, u32) -> (u32, u32),
>(
    rotate: R,
    corrections: C,
    rotation: Vec<u32>,
    epsilon_0: u32,
    vector: Vec<u32>,
    code: rabitq::Code,
)
    requires
        rabitq::keeps_dim(rotate),
        rotation@.len() == vector@.len() * vector@.len(),
        vector@.len() % 8 == 0,
        rabitq::encoded_by(rotate, corrections, rotation, epsilon_0, vector, code),
    ensures
        is_code_of(rotate, corrections, rotation, epsilon_0, vector, code),
{
    let rotated = choose|rotated: Vec<u32>|
        {
            &&& #[trigger] call_ensures(rotate, (&rotation, &vector), rotated)
            &&& rabitq::holds_signs(code.bits, rotated@)
            &&& call_ensures(corrections, (&rotated, epsilon_0), (code.alpha, code.beta))
        };
    assert(rotated@.len() == vector@.len());
    bit_laws::signs_are_bits(code.bits, rotated@);
}

/// Adding a vector: it gets the next id and stands under it with its payload; its id and code come
/// last in the partition whose centroid is nearest to it; and nothing else of the index changes but
/// that its SQ8 codes are out of date.
pub proof fn insertions_mean<
    D: Fn(&Vec<u32>, &Vec<u32>) -> u32,
    R: Fn(&Vec<u32>, &Vec<u32>) -> Vec<u32>,
    C: Fn(&Vec<u32>, u32) -> (u32, u32),
>(
    dist: D,
    rotate: R,
    corrections: C,
    m: IndexModel,
    vector: Vec<u32>,
    pid: usize,
    code: rabitq::Code,
    given: Payload,
    after: IndexModel,
)
    requires
        m.wf(),
        m.next_id < u64::MAX,
        vector@.len() == m.dim,
        rabitq::keeps_dim(rotate),
        index_ivf_rq::insertion(dist, rotate, corrections, m, vector, pid, code),
        after == m.added(pid, vector, code, given),
    ensures
        clustering_laws::goes_to(dist, vector, m.centroids, pid as int),
        is_code_of(rotate, corrections, m.rotation, m.coder.epsilon_0, vector, code),
        after.next_id == m.next_id + 1,
        after.raw.len() == m.raw.len() + 1,
        after.raw[m.raw.len() as int] == vector,
        forall|i: int| 0 <= i < m.raw.len() ==> #[trigger] after.raw[i] == m.raw[i],
        after.payloads.len() == m.payloads.len() + 1,
        after.payloads[m.payloads.len() as int] == given,
        forall|i: int| 0 <= i < m.payloads.len() ==> #[trigger] after.payloads[i] == m.payloads[i],
        after.partitions.len() == m.partitions.len(),
        pid < m.partitions.len(),
        forall|p: int|
            0 <= p < m.partitions.len() && p != pid ==> #[trigger] after.partitions[p]
                == m.partitions[p],
        ({
            let (was, is) = (m.partitions[pid as int], after.partitions[pid as int]);
            &&& is.len() == was.len() + 1
            &&& is[was.len() as int] == (m.next_id, code)
            &&& forall|i: int| 0 <= i < was.len() ==> #[trigger] is[i] == was[i]
        }),
        after.id_to_partition.len() == m.id_to_partition.len() + 1,
        after.id_to_partition[m.raw.len() as int] == pid,
        forall|i: int|
            0 <= i < m.raw.len() ==> #[trigger] after.id_to_partition[i] == m.id_to_partition[i],
        after.dim == m.dim,
        after.config == m.config,
        after.coder == m.coder,
        after.rotation == m.rotation,
        after.centroids == m.centroids,
        after.rotated_centroids == m.rotated_centroids,
        after.norms == m.norms,
        after.sq8 == m.sq8,
        after.sq8_dirty,
        forall|p: int|
            0 <= p < m.stats.len() && p != pid ==> #[trigger] after.stats[p] == m.stats[p],
        after.stats[pid as int].covers(payload::payload_fields(given)),
{
    let row = choose|row: Seq<u32>| #[trigger]
        clustering::distances_to(dist, vector, m.centroids, row) && pid == clustering::nearest(row);
    clustering_laws::nearest_is_chosen(row);
    assert(m.dim * m.dim == vector@.len() * vector@.len());
    codes_hold_signs(rotate, corrections, m.rotation, m.coder.epsilon_0, vector, code);
    partition_stats::stats_with_covers(
        m.stats[pid as int],
        payload::payload_fields(given),
        payload::payload_fields(given),
    );
}

/// SQ8 codes of rows: the range of each dimension goes from the least of its numbers to the greatest,
/// and every number is quantized within the range of its dimension.
pub open spec fn is_sq8_of<Q: Fn(u32, u32, u32) -> u8>(
    quantize: Q,
    rows: Seq<Seq<u32>>,
    data: sq8::Sq8,
) -> bool {
    &&& data.codes.len() == rows.len()
    &&& data.min.len() == data.max.len()
    &&& rows.len() > 0 ==> data.min.len() == rows[0].len()
    &&& rows.len() == 0 ==> data.min.len() == 0
    &&& forall|i: int|
        0 <= i < rows.len() ==> (#[trigger] data.codes[i]).len() == rows[i].len() && forall|d: int|
            0 <= d < rows[i].len() ==> call_ensures(
                quantize,
                (rows[i][d], data.min[d], data.max[d]),
                #[trigger] data.codes[i][d],
            )
    &&& forall|d: int| 0 <= d < data.min.len() ==> is_range_of(rows, d, #[trigger] data.min[d], data.max[d])
}

/// The range of a dimension: no number lies outside it, and its ends are numbers of the dimension
/// wherever one lies within the finite numbers.
pub open spec fn is_range_of(rows: Seq<Seq<u32>>, d: int, low: u32, high: u32) -> bool {
    &&& forall|i: int|
        0 <= i < rows.len() ==> !ieee::single_lt((#[trigger] rows[i])[d], low) && !ieee::single_lt(
            high,
            rows[i][d],
        )
    &&& low == ieee::SINGLE_MAX || exists|i: int|
        0 <= i < rows.len() && (#[trigger] rows[i])[d] == low
    &&& high == ieee::SINGLE_MIN || exists|i: int|
        0 <= i < rows.len() && (#[trigger] rows[i])[d] == high
    &&& !ieee::single_lt(ieee::SINGLE_MAX, low)
    &&& !ieee::single_lt(high, ieee::SINGLE_MIN)
}

proof fn ends_are_reached(rows: Seq<Seq<u32>>, d: int, n: int)
    requires
        0 <= n <= rows.len(),
    ensures
        sq8::low_of(rows, d, n) == ieee::SINGLE_MAX || exists|i: int|
            0 <= i < n && (#[trigger] rows[i])[d] == sq8::low_of(rows, d, n),
        sq8::high_of(rows, d, n) == ieee::SINGLE_MIN || exists|i: int|
            0 <= i < n && (#[trigger] rows[i])[d] == sq8::high_of(rows, d, n),
        !ieee::single_lt(ieee::SINGLE_MAX, sq8::low_of(rows, d, n)),
        !ieee::single_lt(sq8::high_of(rows, d, n), ieee::SINGLE_MIN),
    decreases n,
{
    if n > 0 {
        ends_are_reached(rows, d, n - 1);
        let low = sq8::low_of(rows, d, n - 1);
        let high = sq8::high_of(rows, d, n - 1);
        assert(rows[n - 1][d] == rows[n - 1][d]);
        if sq8::low_of(rows, d, n) == low && low != ieee::SINGLE_MAX {
            let i = choose|i: int| 0 <= i < n - 1 && (#[trigger] rows[i])[d] == low;
            assert(rows[i][d] == low);
        }
        if sq8::high_of(rows, d, n) == high && high != ieee::SINGLE_MIN {
            let i = choose|i: int| 0 <= i < n - 1 && (#[trigger] rows[i])[d] == high;
            assert(rows[i][d] == high);
        }
    }
}

/// SQ8 codes are what they should be.
pub proof fn sq8_codes_mean<Q: Fn(u32, u32, u32) -> u8>(
    quantize: Q,
    rows: Seq<Seq<u32>>,
    data: sq8::Sq8,
)
    requires
        sq8::built_from(quantize, rows, data),
        forall|i: int| 0 <= i < rows.len() ==> (#[trigger] rows[i]).len() == rows[0].len(),
    ensures
        is_sq8_of(quantize, rows, data),
{
    let n = rows.len() as int;
    assert forall|d: int| 0 <= d < data.min.len() implies is_range_of(
        rows,
        d,
        #[trigger] data.min[d],
        data.max[d],
    ) by {
        ends_are_reached(rows, d, n);
        assert forall|i: int| 0 <= i < rows.len() implies !ieee::single_lt(
            (#[trigger] rows[i])[d],
            data.min[d],
        ) && !ieee::single_lt(data.max[d], rows[i][d]) by {
            sq8::range_holds_all(rows, d, n, i);
        }
    }
    assert forall|i: int| 0 <= i < rows.len() implies (#[trigger] data.codes[i]).len()
        == rows[i].len() && forall|d: int|
        0 <= d < rows[i].len() ==> call_ensures(
            quantize,
            (rows[i][d], data.min[d], data.max[d]),
            #[trigger] data.codes[i][d],
        ) by {
        assert(sq8::quantized_by(quantize, rows[i], data.min, data.max, data.codes[i]));
    }
}

/// A vector is put together from its SQ8 code number by number, each within the range of its
/// dimension.
pub proof fn sq8_codes_are_restored<R: Fn(u8, u32, u32) -> u32>(
    restore: R,
    data: sq8::Sq8,
    code: Seq<u8>,
    vector: Seq<u32>,
)
    requires
        sq8::restored_by(restore, data, code, vector),
    ensures
        vector.len() == data.min.len(),
        forall|d: int|
            0 <= d < vector.len() ==> call_ensures(
                restore,
                (code[d], data.min[d], data.max[d]),
                #[trigger] vector[d],
            ),
{
}

/// What is known of the numbers and texts of a partition comes from its vectors.
pub open spec fn is_known_of(
    entries: Seq<(u64, rabitq::Code)>,
    payloads: Seq<Payload>,
    n: int,
    stats: partition_stats::StatsModel,
) -> bool {
    &&& forall|name: Seq<char>| #[trigger]
        stats.ranges.contains_key(name) ==> {
            &&& stats.ranges[name].0 == ieee::DOUBLE_MAX || some_number(
                entries,
                payloads,
                n,
                name,
                stats.ranges[name].0,
            )
            &&& stats.ranges[name].1 == ieee::DOUBLE_MIN || some_number(
                entries,
                payloads,
                n,
                name,
                stats.ranges[name].1,
            )
        }
    &&& forall|name: Seq<char>| #[trigger]
        stats.texts.contains_key(name) ==> {
            &&& stats.texts[name].values.len() <= 64
            &&& stats.texts[name].values.no_duplicates()
            &&& forall|i: int|
                0 <= i < stats.texts[name].values.len() ==> some_text(
                    entries,
                    payloads,
                    n,
                    name,
                    #[trigger] stats.texts[name].values[i],
                )
            &&& !stats.texts[name].complete ==> stats.texts[name].values.len()
                == 64
        }
}

/// The fields of the vector of entry `i`, if it has a payload.
pub open spec fn fields_of(
    entries: Seq<(u64, rabitq::Code)>,
    payloads: Seq<Payload>,
    i: int,
) -> Map<Seq<char>, payload::Field> {
    if entries[i].0 < payloads.len() {
        payload::payload_fields(payloads[entries[i].0 as int])
    } else {
        Map::empty()
    }
}

/// One of the first `n` vectors has a number under a name.
pub open spec fn some_number(
    entries: Seq<(u64, rabitq::Code)>,
    payloads: Seq<Payload>,
    n: int,
    name: Seq<char>,
    number: u64,
) -> bool {
    exists|i: int|
        0 <= i < n && (#[trigger] fields_of(entries, payloads, i)).contains_key(name) && (
        fields_of(entries, payloads, i)[name] matches payload::Field::Number(x, _) && x == number)
}

/// One of the first `n` vectors has a text under a name.
pub open spec fn some_text(
    entries: Seq<(u64, rabitq::Code)>,
    payloads: Seq<Payload>,
    n: int,
    name: Seq<char>,
    text: Seq<char>,
) -> bool {
    exists|i: int|
        0 <= i < n && (#[trigger] fields_of(entries, payloads, i)).contains_key(name) && (
        fields_of(entries, payloads, i)[name] matches payload::Field::Text(x) && x == text)
}

proof fn some_number_later(
    entries: Seq<(u64, rabitq::Code)>,
    payloads: Seq<Payload>,
    n: int,
    name: Seq<char>,
    number: u64,
)
    requires
        some_number(entries, payloads, n - 1, name, number),
    ensures
        some_number(entries, payloads, n, name, number),
{
    let i = choose|i: int|
        0 <= i < n - 1 && (#[trigger] fields_of(entries, payloads, i)).contains_key(name) && (
        fields_of(entries, payloads, i)[name] matches payload::Field::Number(x, _) && x == number);
    assert(fields_of(entries, payloads, i).contains_key(name));
}

proof fn some_text_later(
    entries: Seq<(u64, rabitq::Code)>,
    payloads: Seq<Payload>,
    n: int,
    name: Seq<char>,
    text: Seq<char>,
)
    requires
        some_text(entries, payloads, n - 1, name, text),
    ensures
        some_text(entries, payloads, n, name, text),
{
    let i = choose|i: int|
        0 <= i < n - 1 && (#[trigger] fields_of(entries, payloads, i)).contains_key(name) && (
        fields_of(entries, payloads, i)[name] matches payload::Field::Text(x) && x == text);
    assert(fields_of(entries, payloads, i).contains_key(name));
}

/// What is known of a partition is no more than its vectors give: the ends of every range are
/// numbers of its vectors, and every text is one of theirs.
pub proof fn stats_come_from_vectors(
    entries: Seq<(u64, rabitq::Code)>,
    payloads: Seq<Payload>,
    n: int,
)
    requires
        0 <= n <= entries.len(),
    ensures
        is_known_of(entries, payloads, n, index_ivf_rq::stats_of(entries, payloads, n)),
    decreases n,
{
    if n > 0 {
        stats_come_from_vectors(entries, payloads, n - 1);
        let before = index_ivf_rq::stats_of(entries, payloads, n - 1);
        let now = index_ivf_rq::stats_of(entries, payloads, n);
        let fields = fields_of(entries, payloads, n - 1);
        assert forall|name: Seq<char>| #[trigger] now.ranges.contains_key(name) implies {
            &&& now.ranges[name].0 == ieee::DOUBLE_MAX || some_number(
                entries,
                payloads,
                n,
                name,
                now.ranges[name].0,
            )
            &&& now.ranges[name].1 == ieee::DOUBLE_MIN || some_number(
                entries,
                payloads,
                n,
                name,
                now.ranges[name].1,
            )
        } by {
            if before.ranges.contains_key(name) {
                let r = before.ranges[name];
                if r.0 != ieee::DOUBLE_MAX {
                    some_number_later(entries, payloads, n, name, r.0);
                }
                if r.1 != ieee::DOUBLE_MIN {
                    some_number_later(entries, payloads, n, name, r.1);
                }
            }
            if fields.contains_key(name) && fields[name] is Number {
                assert(some_number(entries, payloads, n, name, fields[name]->Number_0)) by {
                    assert(fields_of(entries, payloads, n - 1).contains_key(name));
                }
            }
        }
        assert forall|name: Seq<char>| #[trigger] now.texts.contains_key(name) implies {
            &&& now.texts[name].values.len() <= 64
            &&& now.texts[name].values.no_duplicates()
            &&& forall|i: int|
                0 <= i < now.texts[name].values.len() ==> some_text(
                    entries,
                    payloads,
                    n,
                    name,
                    #[trigger] now.texts[name].values[i],
                )
            &&& !now.texts[name].complete ==> now.texts[name].values.len()
                == 64
        } by {
            let (old_set, set) = (before.texts_before(name), now.texts[name]);
            let added = fields.contains_key(name) && fields[name] is Text;
            assert forall|i: int| 0 <= i < set.values.len() implies some_text(
                entries,
                payloads,
                n,
                name,
                #[trigger] set.values[i],
            ) by {
                if i < old_set.values.len() {
                    assert(before.texts.contains_key(name));
                    assert(set.values[i] == old_set.values[i]);
                    some_text_later(entries, payloads, n, name, old_set.values[i]);
                } else {
                    assert(added);
                    assert(set.values[i] == fields[name]->Text_0);
                    assert(fields_of(entries, payloads, n - 1).contains_key(name));
                }
            }
            if before.texts.contains_key(name) {
                assert(old_set.values.no_duplicates());
            }
        }
    }
}

/// A vector stands in the partition of the nearest centroid: entry by entry a partition holds the
/// ids of exactly the vectors that were assigned to it, from the lowest on, each with its code.
pub open spec fn is_partition_of<
    R: Fn(&Vec<u32>, &Vec<u32>) -> Vec<u32>,
    C: Fn(&Vec<u32>, u32) -> (u32, u32),
>(
    rotate: R,
    corrections: C,
    rotation: Vec<u32>,
    epsilon_0: u32,
    vectors: Seq<Vec<u32>>,
    assignment: Seq<usize>,
    p: int,
    entries: Seq<(u64, rabitq::Code)>,
) -> bool {
    &&& forall|i: int, j: int|
        0 <= i < j < entries.len() ==> (#[trigger] entries[i]).0 < (#[trigger] entries[j]).0
    &&& forall|j: int|
        0 <= j < entries.len() ==> {
            &&& (#[trigger] entries[j]).0 < vectors.len()
            &&& assignment[entries[j].0 as int] == p
            &&& is_code_of(
                rotate,
                corrections,
                rotation,
                epsilon_0,
                vectors[entries[j].0 as int],
                entries[j].1,
            )
        }
    &&& forall|x: int|
        0 <= x < vectors.len() && #[trigger] assignment[x] == p ==> has_id(entries, x)
}

/// An id is among entries.
pub open spec fn has_id(entries: Seq<(u64, rabitq::Code)>, id: int) -> bool {
    exists|j: int| 0 <= j < entries.len() && (#[trigger] entries[j]).0 == id
}

proof fn partitions_are_filled<
    R: Fn(&Vec<u32>, &Vec<u32>) -> Vec<u32>,
    C: Fn(&Vec<u32>, u32) -> (u32, u32),
>(
    rotate: R,
    corrections: C,
    rotation: Vec<u32>,
    coder: rabitq::RabitqConfig,
    vectors: Seq<Vec<u32>>,
    assignment: Seq<usize>,
    p: int,
    entries: Seq<(u64, rabitq::Code)>,
)
    requires
        vectors.len() <= usize::MAX,
        assignment.len() == vectors.len(),
        rabitq::keeps_dim(rotate),
        coder.dim % 8 == 0,
        rotation@.len() == coder.dim * coder.dim,
        clustering::all_of_dim(vectors, coder.dim as int),
        index_ivf_rq::partition_filled(
            rotate,
            corrections,
            rotation,
            coder,
            vectors,
            assignment,
            p,
            vectors.len() as int,
            entries,
        ),
    ensures
        is_partition_of(
            rotate,
            corrections,
            rotation,
            coder.epsilon_0,
            vectors,
            assignment,
            p,
            entries,
        ),
{
    let n = vectors.len() as int;
    let ids = clustering::members(assignment, p, n);
    clustering::members_are_assigned(assignment, p, n);
    assert forall|j: int| 0 <= j < entries.len() implies {
        &&& (#[trigger] entries[j]).0 < vectors.len()
        &&& assignment[entries[j].0 as int] == p
        &&& is_code_of(
            rotate,
            corrections,
            rotation,
            coder.epsilon_0,
            vectors[entries[j].0 as int],
            entries[j].1,
        )
    } by {
        assert(0 <= ids[j] < n && assignment[ids[j] as int] == p);
        let vector = vectors[ids[j] as int];
        assert(vector@.len() == coder.dim);
        codes_hold_signs(rotate, corrections, rotation, coder.epsilon_0, vector, entries[j].1);
    }
    assert forall|i: int, j: int| 0 <= i < j < entries.len() implies (#[trigger] entries[i]).0 < (
    #[trigger] entries[j]).0 by {
        assert(ids[i] < ids[j]);
    }
    assert forall|x: int| 0 <= x < vectors.len() && #[trigger] assignment[x] == p implies has_id(
        entries,
        x,
    ) by {
        assert(ids.contains(x as usize));
        let j = choose|j: int| 0 <= j < ids.len() && ids[j] == x as usize;
        assert(entries[j].0 == x);
    }
}

/// Building an index of vectors: their ids are their places, with empty payloads; the number of
/// partitions is the whole root of the number of vectors, but at least 4 and at most 65536; the
/// centroids are trained in up to 20 rounds; every vector stands, with its code, in the partition of
/// the centroid nearest to it and in no other; and the SQ8 codes and what is known of each partition
/// are those of its vectors.
pub proof fn building_means<
    D: Fn(&Vec<u32>, &Vec<u32>) -> u32,
    M: Fn(&Vec<usize>) -> Vec<u32>,
    S: Fn(&Vec<u32>) -> Vec<u32>,
    T: Fn(u32) -> u32,
    R: Fn(&Vec<u32>, &Vec<u32>) -> Vec<u32>,
    C: Fn(&Vec<u32>, u32) -> (u32, u32),
    N: Fn(&Vec<u32>) -> u32,
    Q: Fn(u32, u32, u32) -> u8,
>(
    dist: D,
    mean: M,
    running_sums: S,
    draw: T,
    rotate: R,
    corrections: C,
    norm: N,
    quantize: Q,
    rotation: Vec<u32>,
    vectors: Seq<Vec<u32>>,
    m: IndexModel,
)
    requires
        0 < vectors.len() <= usize::MAX,
        m.wf(),
        rabitq::keeps_dim(rotate),
        clustering::sums_all(running_sums),
        index_ivf_rq::built_over(
            dist,
            mean,
            running_sums,
            draw,
            rotate,
            corrections,
            norm,
            quantize,
            rotation,
            vectors,
            m,
        ),
    ensures
        ({
            let (n, p) = (vectors.len() as int, m.partitions.len() as int);
            if n < 16 {
                p == 4
            } else if n >= 65536 * 65536 {
                p == 65536
            } else {
                p * p <= n < (p + 1) * (p + 1)
            }
        }),
        m.raw == vectors,
        m.next_id == vectors.len(),
        m.rotation == rotation,
        m.payloads.len() == vectors.len(),
        forall|i: int|
            0 <= i < vectors.len() ==> payload::payload_fields(#[trigger] m.payloads[i]).is_empty(),
        m.centroids.len() == m.partitions.len(),
        vectors.len() <= m.partitions.len() ==> forall|i: int|
            0 <= i < m.centroids.len() ==> (#[trigger] m.centroids[i])@ == vectors[i % (
            vectors.len() as int)]@,
        m.partitions.len() < vectors.len() ==> exists|
            seeds: Seq<Vec<u32>>,
            first: int,
            picks: Seq<Pick>,
            cols: Seq<Seq<u32>>,
            rounds: Seq<Round>,
        |
            #![trigger clustering_laws::draws_mean(dist, running_sums, draw, vectors, seeds, first, picks, cols), clustering_laws::training_means(dist, mean, vectors, seeds, 20, rounds, m.centroids)]
            {
                &&& seeds.len() == m.partitions.len()
                &&& clustering_laws::draws_mean(
                    dist,
                    running_sums,
                    draw,
                    vectors,
                    seeds,
                    first,
                    picks,
                    cols,
                )
                &&& clustering_laws::training_means(
                    dist,
                    mean,
                    vectors,
                    seeds,
                    20,
                    rounds,
                    m.centroids,
                )
            },
        m.id_to_partition.len() == vectors.len(),
        forall|i: int|
            0 <= i < vectors.len() ==> clustering_laws::goes_to(
                dist,
                vectors[i],
                m.centroids,
                #[trigger] m.id_to_partition[i] as int,
            ),
        forall|p: int|
            0 <= p < m.partitions.len() ==> is_partition_of(
                rotate,
                corrections,
                rotation,
                m.coder.epsilon_0,
                vectors,
                m.id_to_partition,
                p,
                #[trigger] m.partitions[p],
            ),
        m.rotated_centroids.len() == m.centroids.len(),
        m.norms.len() == m.centroids.len(),
        forall|p: int|
            0 <= p < m.centroids.len() ==> call_ensures(
                rotate,
                (&rotation, &m.centroids[p]),
                #[trigger] m.rotated_centroids[p],
            ),
        forall|p: int|
            0 <= p < m.centroids.len() ==> call_ensures(
                norm,
                (&m.rotated_centroids[p],),
                #[trigger] m.norms[p],
            ),
        !m.sq8_dirty,
        m.sq8.len() == m.partitions.len(),
        forall|p: int|
            0 <= p < m.partitions.len() ==> is_sq8_of(
                quantize,
                Seq::new(
                    m.partitions[p].len(),
                    |i: int| vectors[m.partitions[p][i].0 as int]@,
                ),
                #[trigger] m.sq8[p],
            ),
        m.stats.len() == m.partitions.len(),
        forall|p: int|
            0 <= p < m.partitions.len() ==> is_known_of(
                m.partitions[p],
                m.payloads,
                m.partitions[p].len() as int,
                #[trigger] m.stats[p],
            ),
{
    let n = vectors.len() as int;
    partitioning::suits_is_unique(n, m.partitions.len() as int, m.partitions.len() as int);
    clustering_laws::centroids_are_trained(
        dist,
        mean,
        running_sums,
        draw,
        vectors,
        m.partitions.len() as int,
        20,
        m.centroids,
    );
    assert forall|i: int| 0 <= i < vectors.len() implies clustering_laws::goes_to(
        dist,
        vectors[i],
        m.centroids,
        #[trigger] m.id_to_partition[i] as int,
    ) by {
        assert(clustering::nearest_by(dist, vectors[i], m.centroids, m.id_to_partition[i]));
        let row = choose|row: Seq<u32>| #[trigger]
            clustering::distances_to(dist, vectors[i], m.centroids, row) && m.id_to_partition[i]
                == clustering::nearest(row);
        clustering_laws::nearest_is_chosen(row);
    }
    assert forall|p: int| 0 <= p < m.partitions.len() implies is_partition_of(
        rotate,
        corrections,
        rotation,
        m.coder.epsilon_0,
        vectors,
        m.id_to_partition,
        p,
        #[trigger] m.partitions[p],
    ) by {
        partitions_are_filled(
            rotate,
            corrections,
            rotation,
            m.coder,
            vectors,
            m.id_to_partition,
            p,
            m.partitions[p],
        );
    }
    assert forall|p: int| 0 <= p < m.partitions.len() implies is_sq8_of(
        quantize,
        Seq::new(m.partitions[p].len(), |i: int| vectors[m.partitions[p][i].0 as int]@),
        #[trigger] m.sq8[p],
    ) by {
        let rows = index_ivf_rq::entry_rows(m.partitions[p], m.raw);
        assert(rows =~= Seq::new(
            m.partitions[p].len(),
            |i: int| vectors[m.partitions[p][i].0 as int]@,
        ));
        assert forall|i: int| 0 <= i < rows.len() implies (#[trigger] rows[i]).len()
            == rows[0].len() by {
            assert(m.entry_wf(p, i));
            assert(m.entry_wf(p, 0));
            assert(m.raw[m.partitions[p][i].0 as int]@.len() == m.dim);
            assert(m.raw[m.partitions[p][0].0 as int]@.len() == m.dim);
        }
        sq8_codes_mean(quantize, rows, m.sq8[p]);
    }
    assert forall|p: int| 0 <= p < m.partitions.len() implies is_known_of(
        m.partitions[p],
        m.payloads,
        m.partitions[p].len() as int,
        #[trigger] m.stats[p],
    ) by {
        stats_come_from_vectors(m.partitions[p], m.payloads, m.partitions[p].len() as int);
    }
}

} // verus!
