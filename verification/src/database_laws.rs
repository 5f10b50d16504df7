//! What a database holds after vectors were inserted.

use crate::clustering_laws;
use crate::index_ivf_rq::{IndexModel, Payload};
use crate::index_ivf_rq;
use crate::index_laws;
use crate::rabitq;
use crate::vdb;
use vstd::prelude::*;

verus! {

/// An index in which ids are numbers of vectors lists every vector once: under its id in the partition
/// that is noted for it, and nowhere else.
pub proof fn vectors_are_listed_once(m: IndexModel, id: int)
    requires
        m.wf(),
        m.numbered(),
        0 <= id < m.raw.len(),
    ensures
        m.next_id == m.raw.len(),
        m.payloads.len() == m.raw.len(),
        exists|p: int, i: int| #[trigger] stands_at(m, id, p, i) && p == m.id_to_partition[id],
        forall|p: int, i: int, q: int, j: int| #[trigger]
            stands_at(m, id, p, i) && #[trigger] stands_at(m, id, q, j) ==> p == q && i == j,
{
    let p = m.id_to_partition[id] as int;
    assert(m.has_entry(p, id));
    let i = choose|i: int| 0 <= i < m.partitions[p].len() && (#[trigger] m.partitions[p][i]).0 == id;
    assert(stands_at(m, id, p, i));
    assert forall|p: int, i: int, q: int, j: int| #[trigger]
        stands_at(m, id, p, i) && #[trigger] stands_at(m, id, q, j) implies p == q && i == j by {
        let (a, b) = (m.partitions[p][i], m.partitions[q][j]);
        assert(m.id_to_partition[a.0 as int] == p);
        assert(m.id_to_partition[b.0 as int] == q);
        assert(index_ivf_rq::distinct_ids(m.partitions[p]));
        if i < j {
            assert(m.partitions[p][i].0 != m.partitions[p][j].0);
        }
        if j < i {
            assert(m.partitions[p][j].0 != m.partitions[p][i].0);
        }
    }
}

/// An entry of a partition has an id.
pub open spec fn stands_at(m: IndexModel, id: int, p: int, i: int) -> bool {
    &&& 0 <= p < m.partitions.len()
    &&& 0 <= i < m.partitions[p].len()
    &&& m.partitions[p][i].0 == id
}

/// A vector was added last to an index: it has the next number and stands there with its payload, and
/// its id and code come last in the partition whose centroid is nearest to it.
pub open spec fn is_added<
    D: Fn(&Vec<u32>, &Vec<u32>) -> u32,
    R: Fn(&Vec<u32>, &Vec<u32>) -> Vec<u32>,
    C: Fn(&Vec<u32>, u32) -> (u32, u32),
>(
    dist: D,
    rotate: R,
    corrections: C,
    before: IndexModel,
    vector: Vec<u32>,
    given: Payload,
    pid: int,
    code: rabitq::Code,
    after: IndexModel,
) -> bool {
    &&& clustering_laws::goes_to(dist, vector, before.centroids, pid)
    &&& index_laws::is_code_of(
        rotate,
        corrections,
        before.rotation,
        before.coder.epsilon_0,
        vector,
        code,
    )
    &&& after.raw == before.raw.push(vector)
    &&& after.payloads == before.payloads.push(given)
    &&& after.next_id == before.next_id + 1
    &&& after.partitions.len() == before.partitions.len()
    &&& 0 <= pid < before.partitions.len()
    &&& after.partitions[pid] == before.partitions[pid].push((before.next_id, code))
    &&& forall|p: int|
        0 <= p < before.partitions.len() && p != pid ==> #[trigger] after.partitions[p]
            == before.partitions[p]
    &&& after.centroids == before.centroids
    &&& after.rotation == before.rotation
    &&& after.coder == before.coder
}

/// A vector that is inserted into a database is added to its index.
pub proof fn inserted_vector_is_added<
    D: Fn(&Vec<u32>, &Vec<u32>) -> u32,
    R: Fn(&Vec<u32>, &Vec<u32>) -> Vec<u32>,
    C: Fn(&Vec<u32>, u32) -> (u32, u32),
>(
    dist: D,
    rotate: R,
    corrections: C,
    before: IndexModel,
    vector: Vec<u32>,
    given: Payload,
    after: IndexModel,
)
    requires
        before.wf(),
        before.numbered(),
        before.next_id < u64::MAX,
        vector@.len() == before.dim,
        rabitq::keeps_dim(rotate),
        vdb::one_added(dist, rotate, corrections, before, vector, given, after),
    ensures
        after.wf(),
        after.numbered(),
        after.dim == before.dim,
        exists|pid: int, code: rabitq::Code| #[trigger]
            is_added(dist, rotate, corrections, before, vector, given, pid, code, after),
{
    let (pid, code) = choose|pid: usize, code: rabitq::Code| #[trigger]
        index_ivf_rq::insertion(dist, rotate, corrections, before, vector, pid, code) && after
            == before.added(pid, vector, code, given);
    index_laws::insertions_mean(
        dist,
        rotate,
        corrections,
        before,
        vector,
        pid,
        code,
        given,
        after,
    );
    index_ivf_rq::added_keeps_wf(before, pid, vector, code, given);
    assert(is_added(dist, rotate, corrections, before, vector, given, pid as int, code, after));
}

/// Vectors that are inserted together are added one after the other, in their order, each with its own
/// payload: behind the vectors that were there come the new ones, and they have the ids that follow.
pub proof fn inserted_batch_is_added<
    D: Fn(&Vec<u32>, &Vec<u32>) -> u32,
    R: Fn(&Vec<u32>, &Vec<u32>) -> Vec<u32>,
    C: Fn(&Vec<u32>, u32) -> (u32, u32),
>(
    dist: D,
    rotate: R,
    corrections: C,
    vectors: Seq<Vec<u32>>,
    payloads: Seq<Payload>,
    models: Seq<IndexModel>,
    n: int,
)
    requires
        0 <= n <= vectors.len(),
        vectors.len() == payloads.len(),
        vdb::all_added(dist, rotate, corrections, vectors, payloads, models),
        models[0].wf(),
        models[0].numbered(),
        models[0].next_id + vectors.len() <= u64::MAX,
        forall|i: int| 0 <= i < vectors.len() ==> (#[trigger] vectors[i])@.len() == models[0].dim,
        rabitq::keeps_dim(rotate),
    ensures
        models[n].wf(),
        models[n].numbered(),
        models[n].dim == models[0].dim,
        models[n].raw == models[0].raw + vectors.take(n),
        models[n].payloads == models[0].payloads + payloads.take(n),
        models[n].next_id == models[0].next_id + n,
        forall|i: int|
            0 <= i < n ==> adds_one(
                dist,
                rotate,
                corrections,
                models[i],
                #[trigger] vectors[i],
                payloads[i],
                models[i + 1],
            ),
    decreases n,
{
    if n > 0 {
        inserted_batch_is_added(
            dist,
            rotate,
            corrections,
            vectors,
            payloads,
            models,
            n - 1,
        );
        let (before, after) = (models[n - 1], models[n]);
        let (vector, given) = (vectors[n - 1], payloads[n - 1]);
        assert(vdb::one_added(dist, rotate, corrections, before, vector, given, after));
        inserted_vector_is_added(dist, rotate, corrections, before, vector, given, after);
        assert(adds_one(dist, rotate, corrections, before, vector, given, after));
        assert(vectors.take(n) =~= vectors.take(n - 1).push(vector));
        assert(payloads.take(n) =~= payloads.take(n - 1).push(given));
        assert(after.raw =~= models[0].raw + vectors.take(n));
        assert(after.payloads =~= models[0].payloads + payloads.take(n));
    } else {
        assert(models[0].raw =~= models[0].raw + vectors.take(0));
        assert(models[0].payloads =~= models[0].payloads + payloads.take(0));
    }
}

/// A vector was added last to an index, to some partition under some code.
pub open spec fn adds_one<
    D: Fn(&Vec<u32>, &Vec<u32>) -> u32,
    R: Fn(&Vec<u32>, &Vec<u32>) -> Vec<u32>,
    C: Fn(&Vec<u32>, u32) -> (u32, u32),
>(
    dist: D,
    rotate: R,
    corrections: C,
    before: IndexModel,
    vector: Vec<u32>,
    given: Payload,
    after: IndexModel,
) -> bool {
    exists|pid: int, code: rabitq::Code| #[trigger]
        is_added(dist, rotate, corrections, before, vector, given, pid, code, after)
}

} // verus!
