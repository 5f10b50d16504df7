//! The index in memory: partitions of codes around centroids, the vectors, their payloads, and
//! what each partition knows of them.

use crate::clustering;
use crate::partition_stats;
use crate::payload;
use crate::rabitq;
use crate::sq8;
use vstd::prelude::*;

pub use crate::partition_stats::PartitionStats;
pub use crate::partitioning::default_num_partitions;
pub use crate::payload::Payload;
pub use crate::rabitq::{QueryQuantizedCode, RabitqCode, RabitqConfig, RabitqQuantizer};
pub use crate::sq8::Sq8Data;

verus! {

/// The model of an index.
#[verifier::ext_equal]
pub struct IndexModel {
    pub dim: int,
    /// The configuration of the index.
    pub config: RabitqConfig,
    /// The configuration of the quantizer that makes the codes.
    pub coder: RabitqConfig,
    pub rotation: Vec<u32>,
    pub centroids: Seq<Vec<u32>>,
    /// The centroids after the rotation.
    pub rotated_centroids: Seq<Vec<u32>>,
    /// The squared norms of the rotated centroids.
    pub norms: Seq<u32>,
    /// The ids and codes in each partition.
    pub partitions: Seq<Seq<(u64, rabitq::Code)>>,
    /// The vectors, by id.
    pub raw: Seq<Vec<u32>>,
    /// The payloads, by id.
    pub payloads: Seq<Payload>,
    /// The aggregates of each partition.
    pub stats: Seq<partition_stats::StatsModel>,
    /// The SQ8 codes of each partition.
    pub sq8: Seq<sq8::Sq8>,
    /// The partition of each vector, by id.
    pub id_to_partition: Seq<usize>,
    /// Vectors were added since the SQ8 codes were made.
    pub sq8_dirty: bool,
    pub next_id: u64,
}

/// The views of the entries of a partition.
pub open spec fn entry_views(entries: Seq<(u64, RabitqCode)>) -> Seq<(u64, rabitq::Code)> {
    Seq::new(entries.len(), |i: int| (entries[i].0, entries[i].1@))
}

/// The views of the entries of all partitions.
pub open spec fn partition_views(partitions: Seq<Vec<(u64, RabitqCode)>>) -> Seq<
    Seq<(u64, rabitq::Code)>,
> {
    Seq::new(partitions.len(), |p: int| entry_views(partitions[p]@))
}

/// The views of aggregates.
pub open spec fn stats_views(stats: Seq<PartitionStats>) -> Seq<partition_stats::StatsModel> {
    Seq::new(stats.len(), |p: int| stats[p]@)
}

/// The views of SQ8 data.
pub open spec fn sq8_views(data: Seq<Sq8Data>) -> Seq<sq8::Sq8> {
    Seq::new(data.len(), |p: int| data[p]@)
}

impl IndexModel {
    /// The payload of a vector as filters see it, if it has one.
    pub open spec fn fields(self, id: u64) -> Option<Map<Seq<char>, payload::Field>> {
        if id < self.payloads.len() {
            Some(payload::payload_fields(self.payloads[id as int]))
        } else {
            None
        }
    }

    /// The parts fit together: every partition has a centroid and the aggregates of its vectors,
    /// codes have the size of the dimension, and every entry has a vector.
    pub open spec fn wf(self) -> bool {
        &&& self.dim == self.config.dim
        &&& self.dim == self.coder.dim
        &&& self.dim % 64 == 0
        &&& self.rotation@.len() == self.dim * self.dim
        &&& self.centroids.len() == self.partitions.len()
        &&& clustering::all_of_dim(self.centroids, self.dim)
        &&& self.rotated_centroids.len() == self.centroids.len()
        &&& clustering::all_of_dim(self.rotated_centroids, self.dim)
        &&& self.norms.len() == self.centroids.len()
        &&& self.stats.len() == self.partitions.len()
        &&& forall|p: int|
            0 <= p < self.stats.len() ==> #[trigger] self.stats[p] == stats_of(
                self.partitions[p],
                self.payloads,
                self.partitions[p].len() as int,
            )
        &&& self.sq8.len() == self.partitions.len()
        &&& self.id_to_partition.len() == self.raw.len()
        &&& forall|i: int| 0 <= i < self.raw.len() ==> (#[trigger] self.raw[i])@.len() == self.dim
        &&& forall|i: int|
            0 <= i < self.raw.len() && self.partitions.len() > 0
                ==> #[trigger] self.id_to_partition[i] < self.partitions.len()
        &&& forall|p: int, i: int|
            #![trigger self.partitions[p][i]]
            0 <= p < self.partitions.len() && 0 <= i < self.partitions[p].len()
                ==> self.entry_wf(p, i)
        &&& forall|p: int| 0 <= p < self.stats.len() ==> (#[trigger] self.stats[p]).sound()
        &&& forall|p: int|
            0 <= p < self.sq8.len() ==> (#[trigger] self.sq8[p]).wf() && (self.sq8[p].codes.len() > 0
                ==> self.sq8[p].min.len() == self.dim)
        &&& !self.sq8_dirty ==> forall|p: int|
            0 <= p < self.sq8.len() ==> (#[trigger] self.sq8[p]).codes.len()
                == self.partitions[p].len()
    }

    /// An entry has a vector, its code has the right size, and the aggregates of its partition
    /// speak for its payload.
    pub open spec fn entry_wf(self, p: int, i: int) -> bool {
        let (id, code) = self.partitions[p][i];
        &&& id < self.raw.len()
        &&& code.bits.len() == self.dim / 8
        &&& self.fields(id) matches Some(f) ==> self.stats[p].covers(f)
    }

    /// The ids are 0, 1, 2 and so on, each with a payload and with exactly one entry, which is in
    /// the partition noted for it.
    pub open spec fn numbered(self) -> bool {
        &&& self.next_id == self.raw.len()
        &&& self.payloads.len() == self.raw.len()
        &&& forall|p: int, i: int|
            #![trigger self.partitions[p][i]]
            0 <= p < self.partitions.len() && 0 <= i < self.partitions[p].len()
                ==> self.id_to_partition[self.partitions[p][i].0 as int] == p
        &&& forall|id: int|
            0 <= id < self.raw.len() ==> self.has_entry(#[trigger] self.id_to_partition[id] as int, id)
        &&& forall|p: int| 0 <= p < self.partitions.len() ==> distinct_ids(#[trigger] self.partitions[p])
    }

    /// A partition holds an entry of an id.
    pub open spec fn has_entry(self, p: int, id: int) -> bool {
        &&& 0 <= p < self.partitions.len()
        &&& exists|i: int|
            0 <= i < self.partitions[p].len() && (#[trigger] self.partitions[p][i]).0 == id
    }

    /// The index after a vector was added to a partition.
    pub open spec fn added(
        self,
        pid: usize,
        vector: Vec<u32>,
        code: rabitq::Code,
        payload: Payload,
    ) -> IndexModel {
        IndexModel {
            partitions: self.partitions.update(
                pid as int,
                self.partitions[pid as int].push((self.next_id, code)),
            ),
            stats: self.stats.update(
                pid as int,
                self.stats[pid as int].with(payload::payload_fields(payload)),
            ),
            raw: self.raw.push(vector),
            id_to_partition: self.id_to_partition.push(pid),
            payloads: self.payloads.push(payload),
            sq8_dirty: true,
            next_id: (self.next_id + 1) as u64,
            ..self
        }
    }
}

/// No two entries have the same id.
pub open spec fn distinct_ids(entries: Seq<(u64, rabitq::Code)>) -> bool {
    forall|i: int, j: int|
        0 <= i < j < entries.len() ==> (#[trigger] entries[i]).0 != (#[trigger] entries[j]).0
}

/// Adding a vector to an index whose ids are in sequence keeps its parts fitting together and its
/// ids in sequence.
pub proof fn added_keeps_wf(
    m: IndexModel,
    pid: usize,
    vector: Vec<u32>,
    code: rabitq::Code,
    payload: Payload,
)
    requires
        m.wf(),
        m.numbered(),
        m.next_id < u64::MAX,
        0 <= pid < m.partitions.len(),
        vector@.len() == m.dim,
        code.bits.len() == m.dim / 8,
    ensures
        m.added(pid, vector, code, payload).wf(),
        m.added(pid, vector, code, payload).numbered(),
{
    let a = m.added(pid, vector, code, payload);
    let f = payload::payload_fields(payload);
    partition_stats::stats_with_covers(m.stats[pid as int], f, f);
    assert forall|p: int, i: int|
        #![trigger a.partitions[p][i]]
        0 <= p < a.partitions.len() && 0 <= i < a.partitions[p].len() implies a.entry_wf(p, i)
        && a.id_to_partition[a.partitions[p][i].0 as int] == p by {
        if p == pid && i == m.partitions[pid as int].len() {
            assert(a.payloads[m.next_id as int] == payload);
        } else {
            assert(a.partitions[p][i] == m.partitions[p][i]);
            assert(m.entry_wf(p, i));
            let id = m.partitions[p][i].0;
            assert(a.fields(id) == m.fields(id));
            if p == pid {
                partition_stats::stats_with_covers(m.stats[pid as int], f, m.fields(id)->0);
            }
        }
    }
    assert forall|id: int| 0 <= id < a.raw.len() implies a.has_entry(
        #[trigger] a.id_to_partition[id] as int,
        id,
    ) by {
        let p = a.id_to_partition[id] as int;
        if id == m.raw.len() {
            assert(a.partitions[pid as int][m.partitions[pid as int].len() as int].0 == id);
        } else {
            assert(m.has_entry(m.id_to_partition[id] as int, id));
            let i = choose|i: int|
                0 <= i < m.partitions[p].len() && (#[trigger] m.partitions[p][i]).0 == id;
            assert(a.partitions[p][i].0 == id);
        }
    }
    assert forall|p: int| 0 <= p < a.partitions.len() implies distinct_ids(
        #[trigger] a.partitions[p],
    ) by {
        assert(distinct_ids(m.partitions[p]));
        assert forall|i: int, j: int| 0 <= i < j < a.partitions[p].len() implies (
        #[trigger] a.partitions[p][i]).0 != (#[trigger] a.partitions[p][j]).0 by {
            assert(m.partitions[p][i] == a.partitions[p][i]);
            assert(m.entry_wf(p, i));
            if j < m.partitions[p].len() {
                assert(m.partitions[p][j] == a.partitions[p][j]);
            }
        }
    }
    assert forall|i: int| 0 <= i < a.raw.len() implies (#[trigger] a.raw[i])@.len() == a.dim by {
        if i < m.raw.len() {
            assert(a.raw[i] == m.raw[i]);
        }
    }
    assert forall|i: int| 0 <= i < a.raw.len() implies #[trigger] a.id_to_partition[i]
        < a.partitions.len() by {
        if i < m.raw.len() {
            assert(a.id_to_partition[i] == m.id_to_partition[i]);
        }
    }
    assert forall|p: int| 0 <= p < a.stats.len() implies (#[trigger] a.stats[p]).sound()
        && a.stats[p] == stats_of(a.partitions[p], a.payloads, a.partitions[p].len() as int) by {
        assert(m.stats[p].sound());
        let (old_entries, entries) = (m.partitions[p], a.partitions[p]);
        let n = old_entries.len() as int;
        assert forall|i: int| 0 <= i < n implies same_payload(
            old_entries[i].0,
            m.payloads,
            a.payloads,
        ) && entries[i].0 == #[trigger] old_entries[i].0 by {
            assert(m.entry_wf(p, i));
            assert(a.payloads[old_entries[i].0 as int] == m.payloads[old_entries[i].0 as int]);
        }
        stats_of_same(old_entries, m.payloads, entries, a.payloads, n);
        if p == pid {
            assert(entries[n].0 == m.next_id);
            assert(a.payloads[m.next_id as int] == payload);
        }
    }
}

/// An index of vectors.
pub struct IvfRabitqIndex {
    config: RabitqConfig,
    quantizer: RabitqQuantizer,
    centroids: Vec<Vec<u32>>,
    rotated_centroids: Vec<Vec<u32>>,
    rotated_centroid_norms_sq: Vec<u32>,
    partitions: Vec<Vec<(u64, RabitqCode)>>,
    raw: Vec<Vec<u32>>,
    payloads: Vec<Payload>,
    partition_stats: Vec<PartitionStats>,
    sq8: Vec<Sq8Data>,
    id_to_partition: Vec<usize>,
    sq8_dirty: bool,
    next_id: u64,
}

impl View for IvfRabitqIndex {
    type V = IndexModel;

    closed spec fn view(&self) -> IndexModel {
        IndexModel {
            dim: self.config.dim as int,
            config: self.config,
            coder: self.quantizer.settings(),
            rotation: self.quantizer.matrix(),
            centroids: self.centroids@,
            rotated_centroids: self.rotated_centroids@,
            norms: self.rotated_centroid_norms_sq@,
            partitions: partition_views(self.partitions@),
            raw: self.raw@,
            payloads: self.payloads@,
            stats: stats_views(self.partition_stats@),
            sq8: sq8_views(self.sq8@),
            id_to_partition: self.id_to_partition@,
            sq8_dirty: self.sq8_dirty,
            next_id: self.next_id,
        }
    }
}

impl IvfRabitqIndex {
    /// The parts of the index fit together.
    pub closed spec fn wf(&self) -> bool {
        self@.wf() && self.quantizer.wf()
    }

    /// What `wf` says of the model.
    pub proof fn wf_model(&self)
        requires
            self.wf(),
        ensures
            self@.wf(),
            self@.partitions.len() <= usize::MAX,
    {
        assert(self.partitions@.len() == self.partitions.len());
    }
}

/// A vector of zeros.
fn zeros(dim: usize) -> (v: Vec<u32>)
    ensures
        v@ == Seq::new(dim as nat, |d: int| 0u32),
{
    let v = vec![0u32; dim];
    assert(v@ =~= Seq::new(dim as nat, |d: int| 0u32));
    v
}

/// The model of an index without vectors.
pub open spec fn is_empty_model(m: IndexModel, dim: usize, rotation: Vec<u32>) -> bool {
    let zero = Seq::new(dim as nat, |d: int| 0u32);
    &&& m.dim == dim
    &&& m.config == rabitq::default_config(dim)
    &&& m.coder == rabitq::default_config(dim)
    &&& m.rotation == rotation
    &&& m.centroids.len() == 4
    &&& forall|p: int| 0 <= p < 4 ==> (#[trigger] m.centroids[p])@ == zero
    &&& m.rotated_centroids.len() == 4
    &&& forall|p: int| 0 <= p < 4 ==> (#[trigger] m.rotated_centroids[p])@ == zero
    &&& m.norms == seq![0u32, 0u32, 0u32, 0u32]
    &&& m.partitions == Seq::new(4, |p: int| Seq::<(u64, rabitq::Code)>::empty())
    &&& m.raw.len() == 0
    &&& m.payloads.len() == 0
    &&& m.stats == Seq::new(4, |p: int| partition_stats::StatsModel::none())
    &&& m.sq8.len() == 4
    &&& forall|p: int| 0 <= p < 4 ==> (#[trigger] m.sq8[p]).codes.len() == 0
    &&& m.id_to_partition.len() == 0
    &&& !m.sq8_dirty
    &&& m.next_id == 0
}

impl IvfRabitqIndex {
    /// An index without vectors and with four partitions around the origin.
    pub fn new(dim: usize, rotation: Vec<u32>) -> (index: Self)
        requires
            dim % 64 == 0,
            rotation@.len() == dim * dim,
        ensures
            index.wf(),
            index@.wf(),
            index@.numbered(),
            is_empty_model(index@, dim, rotation),
    {
        let config = RabitqConfig::new(dim);
        let quantizer = RabitqQuantizer::from_rotation(config, rotation);
        let mut centroids: Vec<Vec<u32>> = Vec::new();
        let mut rotated_centroids: Vec<Vec<u32>> = Vec::new();
        let mut norms: Vec<u32> = Vec::new();
        let mut partitions: Vec<Vec<(u64, RabitqCode)>> = Vec::new();
        let mut stats: Vec<PartitionStats> = Vec::new();
        let mut sq8: Vec<Sq8Data> = Vec::new();
        let ghost zero = Seq::new(dim as nat, |d: int| 0u32);
        let mut p: usize = 0;
        while p < 4
            invariant
                p <= 4,
                zero == Seq::new(dim as nat, |d: int| 0u32),
                centroids@.len() == p,
                rotated_centroids@.len() == p,
                norms@.len() == p,
                partitions@.len() == p,
                stats@.len() == p,
                sq8@.len() == p,
                forall|q: int| 0 <= q < p ==> (#[trigger] centroids@[q])@ == zero,
                forall|q: int| 0 <= q < p ==> (#[trigger] rotated_centroids@[q])@ == zero,
                forall|q: int| 0 <= q < p ==> #[trigger] norms@[q] == 0,
                forall|q: int| 0 <= q < p ==> (#[trigger] partitions@[q])@.len() == 0,
                forall|q: int|
                    0 <= q < p ==> (#[trigger] stats@[q])@ == partition_stats::StatsModel::none(),
                forall|q: int| 0 <= q < p ==> (#[trigger] sq8@[q])@.codes.len() == 0 && sq8@[q]@.wf(),
            decreases 4 - p,
        {
            centroids.push(zeros(dim));
            rotated_centroids.push(zeros(dim));
            norms.push(0);
            partitions.push(Vec::new());
            stats.push(PartitionStats::new());
            sq8.push(Sq8Data::new(dim));
            p += 1;
        }
        let index = IvfRabitqIndex {
            config,
            quantizer,
            centroids,
            rotated_centroids,
            rotated_centroid_norms_sq: norms,
            partitions,
            raw: Vec::new(),
            payloads: Vec::new(),
            partition_stats: stats,
            sq8,
            id_to_partition: Vec::new(),
            sq8_dirty: false,
            next_id: 0,
        };
        proof {
            let m = index@;
            assert(m.norms =~= seq![0u32, 0u32, 0u32, 0u32]);
            assert forall|q: int| 0 <= q < 4 implies #[trigger] m.partitions[q] == Seq::<
                (u64, rabitq::Code),
            >::empty() by {
                assert(m.partitions[q] =~= Seq::<(u64, rabitq::Code)>::empty());
            }
            assert(m.partitions =~= Seq::new(4, |p: int| Seq::<(u64, rabitq::Code)>::empty()));
            assert(m.stats =~= Seq::new(4, |p: int| partition_stats::StatsModel::none()));
            assert forall|p: int| 0 <= p < 4 implies (#[trigger] m.sq8[p]).codes.len() == 0
                && m.sq8[p].wf() by {
                assert(m.sq8[p] == index.sq8@[p]@);
            }
        }
        index
    }

    /// Adds a vector with its payload to the partition whose centroid is nearest, and gives its id.
    pub fn add_with_payload<
        D: Fn(&Vec<u32>, &Vec<u32>) -> u32,
        R: Fn(&Vec<u32>, &Vec<u32>) -> Vec<u32>,
        C: Fn(&Vec<u32>, u32) -> (u32, u32),
    >(
        &mut self,
        vector: Vec<u32>,
        payload: Payload,
        dist: &D,
        rotate: &R,
        corrections: &C,
    ) -> (id: u64)
        requires
            old(self).wf(),
            old(self)@.centroids.len() > 0,
            vector@.len() == old(self)@.dim,
            old(self)@.next_id < u64::MAX,
            clustering::compares_equals(*dist),
            rabitq::keeps_dim(*rotate),
            forall|r: Vec<u32>, e: u32| #[trigger] call_requires(*corrections, (&r, e)),
        ensures
            id == old(self)@.next_id,
            exists|pid: usize, code: rabitq::Code| #[trigger]
                insertion(*dist, *rotate, *corrections, old(self)@, vector, pid, code)
                    && final(self)@ == old(self)@.added(pid, vector, code, payload),
            old(self)@.numbered() ==> final(self).wf() && final(self)@.numbered(),
    {
        let ghost before = self@;
        let row = clustering::distance_row(dist, &vector, &self.centroids);
        let pid: usize = clustering::nearest_partition(row.as_slice());
        let code = self.quantizer.encode(&vector, rotate, corrections);
        let ghost c = code@;
        assert(clustering::nearest_by(*dist, vector, before.centroids, pid));
        assert(insertion(*dist, *rotate, *corrections, before, vector, pid, c));
        let id: u64 = self.next_id;
        let ghost v = vector;
        self.partitions[pid].push((id, code));
        self.partition_stats[pid].update(&payload);
        self.raw.push(vector);
        self.id_to_partition.push(pid);
        self.payloads.push(payload);
        self.sq8_dirty = true;
        self.next_id = id + 1;
        proof {
            let a = before.added(pid, v, c, payload);
            assert(self@.partitions[pid as int] =~= a.partitions[pid as int]);
            assert(self@.partitions =~= a.partitions);
            assert(self@.stats =~= a.stats);
            assert(self@ =~= a);
            if before.numbered() {
                added_keeps_wf(before, pid, v, c, payload);
            }
        }
        id
    }

    /// Adds a vector without scalar fields.
    pub fn add<
        D: Fn(&Vec<u32>, &Vec<u32>) -> u32,
        R: Fn(&Vec<u32>, &Vec<u32>) -> Vec<u32>,
        C: Fn(&Vec<u32>, u32) -> (u32, u32),
    >(&mut self, vector: Vec<u32>, dist: &D, rotate: &R, corrections: &C) -> (id: u64)
        requires
            old(self).wf(),
            old(self)@.centroids.len() > 0,
            vector@.len() == old(self)@.dim,
            old(self)@.next_id < u64::MAX,
            clustering::compares_equals(*dist),
            rabitq::keeps_dim(*rotate),
            forall|r: Vec<u32>, e: u32| #[trigger] call_requires(*corrections, (&r, e)),
        ensures
            id == old(self)@.next_id,
            exists|pid: usize, code: rabitq::Code, payload: Payload|
                {
                    &&& #[trigger] insertion(
                        *dist,
                        *rotate,
                        *corrections,
                        old(self)@,
                        vector,
                        pid,
                        code,
                    )
                    &&& #[trigger] payload::payload_fields(payload).is_empty()
                    &&& final(self)@ == old(self)@.added(pid, vector, code, payload)
                },
            old(self)@.numbered() ==> final(self).wf() && final(self)@.numbered(),
    {
        self.add_with_payload(vector, payload::empty_payload(), dist, rotate, corrections)
    }
}

/// A vector belongs to partition `pid`, whose centroid is nearest, with this code.
pub open spec fn insertion<
    D: Fn(&Vec<u32>, &Vec<u32>) -> u32,
    R: Fn(&Vec<u32>, &Vec<u32>) -> Vec<u32>,
    C: Fn(&Vec<u32>, u32) -> (u32, u32),
>(
    dist: D,
    rotate: R,
    corrections: C,
    m: IndexModel,
    vector: Vec<u32>,
    pid: usize,
    code: rabitq::Code,
) -> bool {
    &&& pid < m.partitions.len()
    &&& clustering::nearest_by(dist, vector, m.centroids, pid)
    &&& rabitq::encoded_by(rotate, corrections, m.rotation, m.coder.epsilon_0, vector, code)
    &&& code.bits.len() == m.dim / 8
}

impl IvfRabitqIndex {
    /// How many vectors the index holds.
    pub fn len(&self) -> (n: usize)
        ensures
            n == self@.raw.len(),
    {
        self.raw.len()
    }

    /// Whether the index holds no vector.
    pub fn is_empty(&self) -> (r: bool)
        ensures
            r == (self@.raw.len() == 0),
    {
        self.raw.len() == 0
    }

    /// How many partitions the index has.
    pub fn num_partitions(&self) -> (n: usize)
        ensures
            n == self@.partitions.len(),
    {
        self.partitions.len()
    }

    /// The configuration.
    pub fn config(&self) -> (config: &RabitqConfig)
        ensures
            *config == self@.config,
            config.dim == self@.dim,
    {
        &self.config
    }

    /// The quantizer.
    pub fn quantizer(&self) -> (q: &RabitqQuantizer)
        ensures
            q.matrix() == self@.rotation,
            q.settings() == self@.coder,
            self.wf() ==> q.wf() && q.dim() == self@.dim,
    {
        &self.quantizer
    }

    /// The code of a query.
    pub fn encode_query<R: Fn(&Vec<u32>, &Vec<u32>) -> Vec<u32>, C: Fn(&Vec<u32>, u32) -> (u32, u32)>(
        &self,
        query: &Vec<u32>,
        rotate: &R,
        corrections: &C,
    ) -> (code: RabitqCode)
        requires
            self.wf(),
            query@.len() == self@.dim,
            rabitq::keeps_dim(*rotate),
            forall|r: Vec<u32>, e: u32| #[trigger] call_requires(*corrections, (&r, e)),
        ensures
            rabitq::encoded_by(
                *rotate,
                *corrections,
                self@.rotation,
                self@.coder.epsilon_0,
                *query,
                code@,
            ),
            code@.bits.len() == self@.dim / 8,
    {
        self.quantizer().encode_query(query, rotate, corrections)
    }

    /// The id of the next vector.
    pub fn next_id(&self) -> (id: u64)
        ensures
            id == self@.next_id,
    {
        self.next_id
    }

    /// The rotation, row by row.
    pub fn rotation_matrix(&self) -> (rotation: &Vec<u32>)
        ensures
            *rotation == self@.rotation,
    {
        self.quantizer.rotation_matrix()
    }

    /// The centroids.
    pub fn centroids(&self) -> (centroids: &Vec<Vec<u32>>)
        ensures
            centroids@ == self@.centroids,
    {
        &self.centroids
    }

    /// The centroids after the rotation.
    pub fn rotated_centroids(&self) -> (centroids: &Vec<Vec<u32>>)
        ensures
            centroids@ == self@.rotated_centroids,
    {
        &self.rotated_centroids
    }

    /// The squared norms of the rotated centroids.
    pub fn rotated_centroid_norms_sq(&self) -> (norms: &Vec<u32>)
        ensures
            norms@ == self@.norms,
    {
        &self.rotated_centroid_norms_sq
    }

    /// The ids and codes in a partition.
    pub fn partition_entries(&self, pid: usize) -> (entries: &Vec<(u64, RabitqCode)>)
        requires
            pid < self@.partitions.len(),
        ensures
            entry_views(entries@) == self@.partitions[pid as int],
    {
        &self.partitions[pid]
    }

    /// The aggregates of a partition.
    pub fn partition_stats(&self, pid: usize) -> (stats: &PartitionStats)
        requires
            pid < self@.stats.len(),
        ensures
            stats@ == self@.stats[pid as int],
    {
        &self.partition_stats[pid]
    }

    /// The aggregates of all partitions.
    pub fn partition_stats_all(&self) -> (stats: &Vec<PartitionStats>)
        ensures
            stats_views(stats@) == self@.stats,
    {
        &self.partition_stats
    }

    /// The vector of an id, if there is one.
    pub fn raw_vector(&self, id: u64) -> (vector: Option<&Vec<u32>>)
        ensures
            match vector {
                Some(v) => id < self@.raw.len() && *v == self@.raw[id as int],
                None => id >= self@.raw.len(),
            },
    {
        if id < self.raw.len() as u64 {
            Some(&self.raw[id as usize])
        } else {
            None
        }
    }

    /// All vectors, by id.
    pub fn raw_vectors(&self) -> (vectors: &Vec<Vec<u32>>)
        ensures
            vectors@ == self@.raw,
    {
        &self.raw
    }

    /// All payloads, by id.
    pub fn payloads(&self) -> (payloads: &Vec<Payload>)
        ensures
            payloads@ == self@.payloads,
    {
        &self.payloads
    }

    /// The payload of an id, if there is one.
    pub fn payload(&self, id: u64) -> (payload: Option<&Payload>)
        ensures
            match payload {
                Some(p) => id < self@.payloads.len() && *p == self@.payloads[id as int],
                None => id >= self@.payloads.len(),
            },
    {
        if id < self.payloads.len() as u64 {
            Some(&self.payloads[id as usize])
        } else {
            None
        }
    }

    /// Whether vectors were added since the SQ8 codes were made.
    pub fn sq8_dirty(&self) -> (dirty: bool)
        ensures
            dirty == self@.sq8_dirty,
    {
        self.sq8_dirty
    }

    /// Where an id stands in a partition.
    fn entry_position(&self, pid: usize, id: u64) -> (pos: Option<usize>)
        requires
            pid < self@.partitions.len(),
        ensures
            match pos {
                Some(i) => first_entry(self@.partitions[pid as int], id, i as int),
                None => forall|i: int|
                    0 <= i < self@.partitions[pid as int].len() ==> (
                    #[trigger] self@.partitions[pid as int][i]).0 != id,
            },
    {
        let entries = &self.partitions[pid];
        let mut i: usize = 0;
        while i < entries.len()
            invariant
                i <= entries@.len(),
                pid < self@.partitions.len(),
                entry_views(entries@) == self@.partitions[pid as int],
                forall|j: int|
                    0 <= j < i ==> (#[trigger] self@.partitions[pid as int][j]).0 != id,
            decreases entries@.len() - i,
        {
            assert(self@.partitions[pid as int][i as int].0 == entries@[i as int].0);
            if entries[i].0 == id {
                return Some(i);
            }
            i += 1;
        }
        None
    }

    /// The distance to a vector as its SQ8 code has it, if it has one: `restore` gives the number
    /// of a byte within a range and `exact` the distance to a vector.
    pub fn sq8_distance<R: Fn(u8, u32, u32) -> u32, X: Fn(&Vec<u32>) -> u32>(
        &self,
        id: u64,
        restore: &R,
        exact: &X,
    ) -> (dist: Option<u32>)
        requires
            self.wf(),
            forall|c: u8, lo: u32, hi: u32| #[trigger] call_requires(*restore, (c, lo, hi)),
            forall|v: Vec<u32>|
                v@.len() == self@.dim ==> #[trigger] call_requires(*exact, (&v,)),
        ensures
            sq8_measured(*restore, *exact, self@, id, dist),
    {
        if id >= self.id_to_partition.len() as u64 {
            return None;
        }
        let pid: usize = self.id_to_partition[id as usize];
        if pid >= self.partitions.len() {
            return None;
        }
        match self.entry_position(pid, id) {
            None => {
                assert forall|pos: int| !(#[trigger] sq8_place(self@, id, pos)) by {
                    if sq8_place(self@, id, pos) {
                        assert(self@.partitions[pid as int][pos].0 != id);
                    }
                }
                None
            },
            Some(pos) => {
                let data = &self.sq8[pid];
                assert(self@.sq8[pid as int] == data@);
                assert(data@.wf());
                assert forall|q: int| #[trigger] first_entry(
                    self@.partitions[pid as int],
                    id,
                    q,
                ) implies q == pos by {
                    if q < pos {
                        assert(self@.partitions[pid as int][q].0 != id);
                    } else if pos < q {
                        assert(self@.partitions[pid as int][pos as int].0 != id);
                    }
                }
                assert(first_entry(self@.partitions[pid as int], id, pos as int));
                if pos >= data.codes.len() {
                    return None;
                }
                assert(data@.codes[pos as int] == data.codes@[pos as int]@);
                let vector = data.dequantize(data.codes[pos].as_slice(), restore);
                let d: u32 = exact(&vector);
                assert(sq8_reads(*restore, *exact, self@, id, pos as int, vector, d));
                Some(d)
            },
        }
    }

    /// Makes the SQ8 codes of all partitions anew.
    pub fn rebuild_sq8<Q: Fn(u32, u32, u32) -> u8>(&mut self, quantize: &Q)
        requires
            old(self).wf(),
            forall|v: u32, lo: u32, hi: u32| #[trigger] call_requires(*quantize, (v, lo, hi)),
        ensures
            final(self).wf(),
            final(self)@ == (IndexModel {
                sq8: final(self)@.sq8,
                sq8_dirty: false,
                ..old(self)@
            }),
            all_sq8_built(*quantize, final(self)@),
    {
        let data = build_all_sq8(&self.partitions, &self.raw, quantize, Ghost(self@.dim));
        self.sq8 = data;
        self.sq8_dirty = false;
        proof {
            let m = self@;
            let o = old(self)@;
            assert(m =~= (IndexModel { sq8: m.sq8, sq8_dirty: false, ..o }));
            assert forall|p: int, i: int|
                #![trigger m.partitions[p][i]]
                0 <= p < m.partitions.len() && 0 <= i < m.partitions[p].len() implies m.entry_wf(
                p,
                i,
            ) by {
                assert(o.partitions[p][i] == m.partitions[p][i]);
                assert(o.entry_wf(p, i));
            }
        }
    }
}

/// `i` is the first place of an id in a partition.
pub open spec fn first_entry(entries: Seq<(u64, rabitq::Code)>, id: u64, i: int) -> bool {
    &&& 0 <= i < entries.len()
    &&& entries[i].0 == id
    &&& forall|j: int| 0 <= j < i ==> (#[trigger] entries[j]).0 != id
}

/// `dist` is the distance to the vector that the SQ8 code of an id stands for; none where the id,
/// its entry or its code is missing.
pub open spec fn sq8_measured<R: Fn(u8, u32, u32) -> u32, X: Fn(&Vec<u32>) -> u32>(
    restore: R,
    exact: X,
    m: IndexModel,
    id: u64,
    dist: Option<u32>,
) -> bool {
    match dist {
        Some(d) => sq8_has_distance(restore, exact, m, id, d),
        None => forall|pos: int| !(#[trigger] sq8_place(m, id, pos)),
    }
}

/// The SQ8 code of an id stands for a vector at this distance.
pub open spec fn sq8_has_distance<R: Fn(u8, u32, u32) -> u32, X: Fn(&Vec<u32>) -> u32>(
    restore: R,
    exact: X,
    m: IndexModel,
    id: u64,
    d: u32,
) -> bool {
    exists|pos: int, vector: Vec<u32>| #[trigger]
        sq8_reads(restore, exact, m, id, pos, vector, d)
}

/// The SQ8 code at `pos` stands for a vector at this distance.
pub open spec fn sq8_reads<R: Fn(u8, u32, u32) -> u32, X: Fn(&Vec<u32>) -> u32>(
    restore: R,
    exact: X,
    m: IndexModel,
    id: u64,
    pos: int,
    vector: Vec<u32>,
    d: u32,
) -> bool {
    let pid = m.id_to_partition[id as int] as int;
    &&& sq8_place(m, id, pos)
    &&& sq8::restored_by(restore, m.sq8[pid], m.sq8[pid].codes[pos], vector@)
    &&& call_ensures(exact, (&vector,), d)
}

/// `pos` is where the entry and the SQ8 code of an id stand in its partition.
pub open spec fn sq8_place(m: IndexModel, id: u64, pos: int) -> bool {
    let pid = m.id_to_partition[id as int] as int;
    &&& id < m.raw.len()
    &&& pid < m.partitions.len()
    &&& first_entry(m.partitions[pid], id, pos)
    &&& pos < m.sq8[pid].codes.len()
}

/// The vectors of the entries of a partition.
pub open spec fn entry_rows(entries: Seq<(u64, rabitq::Code)>, raw: Seq<Vec<u32>>) -> Seq<Seq<u32>> {
    Seq::new(entries.len(), |i: int| raw[entries[i].0 as int]@)
}

/// The SQ8 codes of every partition are those of its vectors.
pub open spec fn all_sq8_built<Q: Fn(u32, u32, u32) -> u8>(quantize: Q, m: IndexModel) -> bool {
    &&& m.sq8.len() == m.partitions.len()
    &&& forall|p: int|
        0 <= p < m.partitions.len() ==> sq8::built_from(
            quantize,
            entry_rows(m.partitions[p], m.raw),
            #[trigger] m.sq8[p],
        )
}

/// Every entry has a vector, and all vectors have the same dimension.
pub open spec fn entries_have_rows(
    partitions: Seq<Seq<(u64, rabitq::Code)>>,
    raw: Seq<Vec<u32>>,
    dim: int,
) -> bool {
    &&& forall|p: int, i: int|
        #![trigger partitions[p][i]]
        0 <= p < partitions.len() && 0 <= i < partitions[p].len() ==> partitions[p][i].0 < raw.len()
    &&& forall|i: int| 0 <= i < raw.len() ==> (#[trigger] raw[i])@.len() == dim
}

/// The SQ8 codes of one partition.
fn build_sq8<Q: Fn(u32, u32, u32) -> u8>(
    entries: &Vec<(u64, RabitqCode)>,
    raw: &Vec<Vec<u32>>,
    quantize: &Q,
    Ghost(dim): Ghost<int>,
) -> (data: Sq8Data)
    requires
        forall|i: int| 0 <= i < entries@.len() ==> (#[trigger] entries@[i]).0 < raw@.len(),
        forall|i: int| 0 <= i < raw@.len() ==> (#[trigger] raw@[i])@.len() == dim,
        forall|v: u32, lo: u32, hi: u32| #[trigger] call_requires(*quantize, (v, lo, hi)),
    ensures
        sq8::built_from(*quantize, entry_rows(entry_views(entries@), raw@), data@),
        data@.wf(),
        data@.codes.len() == entries@.len(),
{
    let ghost rows = entry_rows(entry_views(entries@), raw@);
    let mut refs: Vec<&[u32]> = Vec::with_capacity(entries.len());
    let n: usize = raw.len();
    let mut i: usize = 0;
    while i < entries.len()
        invariant
            i <= entries@.len(),
            n == raw@.len(),
            refs@.len() == i,
            rows == entry_rows(entry_views(entries@), raw@),
            forall|i: int| 0 <= i < entries@.len() ==> (#[trigger] entries@[i]).0 < raw@.len(),
            forall|i: int| 0 <= i < raw@.len() ==> (#[trigger] raw@[i])@.len() == dim,
            forall|j: int| 0 <= j < i ==> (#[trigger] refs@[j])@ == rows[j],
            forall|j: int| 0 <= j < i ==> (#[trigger] refs@[j])@.len() == dim,
        decreases entries@.len() - i,
    {
        let id: u64 = entries[i].0;
        assert(entries@[i as int].0 < raw@.len());
        assert(raw@[id as int]@.len() == dim);
        refs.push(raw[id as usize].as_slice());
        i += 1;
    }
    assert(sq8::slice_views(refs@) =~= rows);
    Sq8Data::build(refs.as_slice(), quantize)
}

/// The SQ8 codes of all partitions.
fn build_all_sq8<Q: Fn(u32, u32, u32) -> u8>(
    partitions: &Vec<Vec<(u64, RabitqCode)>>,
    raw: &Vec<Vec<u32>>,
    quantize: &Q,
    Ghost(dim): Ghost<int>,
) -> (data: Vec<Sq8Data>)
    requires
        entries_have_rows(partition_views(partitions@), raw@, dim),
        forall|v: u32, lo: u32, hi: u32| #[trigger] call_requires(*quantize, (v, lo, hi)),
    ensures
        data@.len() == partitions@.len(),
        forall|p: int|
            0 <= p < data@.len() ==> {
                &&& sq8::built_from(
                    *quantize,
                    entry_rows(entry_views(partitions@[p]@), raw@),
                    (#[trigger] sq8_views(data@)[p]),
                )
                &&& sq8_views(data@)[p].wf()
                &&& sq8_views(data@)[p].codes.len() == partitions@[p]@.len()
                &&& sq8_views(data@)[p].codes.len() > 0 ==> sq8_views(data@)[p].min.len() == dim
            },
{
    let mut data: Vec<Sq8Data> = Vec::with_capacity(partitions.len());
    let mut p: usize = 0;
    while p < partitions.len()
        invariant
            p <= partitions@.len(),
            data@.len() == p,
            entries_have_rows(partition_views(partitions@), raw@, dim),
            forall|v: u32, lo: u32, hi: u32| #[trigger] call_requires(*quantize, (v, lo, hi)),
            forall|q: int|
                0 <= q < p ==> {
                    &&& sq8::built_from(
                        *quantize,
                        entry_rows(entry_views(partitions@[q]@), raw@),
                        (#[trigger] data@[q])@,
                    )
                    &&& data@[q]@.wf()
                    &&& data@[q]@.codes.len() == partitions@[q]@.len()
                },
        decreases partitions@.len() - p,
    {
        assert forall|i: int| 0 <= i < partitions@[p as int]@.len() implies (
        #[trigger] partitions@[p as int]@[i]).0 < raw@.len() by {
            assert(partition_views(partitions@)[p as int][i].0 == partitions@[p as int]@[i].0);
        }
        data.push(build_sq8(&partitions[p], raw, quantize, Ghost(dim)));
        p += 1;
    }
    assert forall|p: int| 0 <= p < data@.len() implies {
        &&& sq8::built_from(
            *quantize,
            entry_rows(entry_views(partitions@[p]@), raw@),
            (#[trigger] sq8_views(data@)[p]),
        )
        &&& sq8_views(data@)[p].wf()
        &&& sq8_views(data@)[p].codes.len() == partitions@[p]@.len()
        &&& sq8_views(data@)[p].codes.len() > 0 ==> sq8_views(data@)[p].min.len() == dim
    } by {
        assert(sq8_views(data@)[p] == data@[p]@);
        if partitions@[p]@.len() > 0 {
            let entries = partition_views(partitions@)[p];
            assert(entries[0].0 < raw@.len());
            assert(entry_rows(entries, raw@)[0] == raw@[entries[0].0 as int]@);
        }
    }
    data
}

/// The aggregates of the first `n` entries of a partition, by their payloads.
pub open spec fn stats_of(
    entries: Seq<(u64, rabitq::Code)>,
    payloads: Seq<Payload>,
    n: int,
) -> partition_stats::StatsModel
    decreases n,
{
    if n <= 0 {
        partition_stats::StatsModel::none()
    } else {
        let before = stats_of(entries, payloads, n - 1);
        let id = entries[n - 1].0;
        if id < payloads.len() {
            before.with(payload::payload_fields(payloads[id as int]))
        } else {
            before
        }
    }
}

/// An id has a payload in both of two lists, with the same fields, or in none of them.
pub open spec fn same_payload(id: u64, a: Seq<Payload>, b: Seq<Payload>) -> bool {
    &&& id < a.len() <==> id < b.len()
    &&& id < a.len() ==> payload::payload_fields(a[id as int]) == payload::payload_fields(
        b[id as int],
    )
}

/// Aggregates depend on the ids of the entries and on the fields of their payloads alone.
pub proof fn stats_of_same(
    x: Seq<(u64, rabitq::Code)>,
    a: Seq<Payload>,
    y: Seq<(u64, rabitq::Code)>,
    b: Seq<Payload>,
    n: int,
)
    requires
        0 <= n <= x.len(),
        n <= y.len(),
        forall|i: int|
            0 <= i < n ==> same_payload(x[i].0, a, b) && y[i].0 == #[trigger] x[i].0,
    ensures
        stats_of(x, a, n) == stats_of(y, b, n),
    decreases n,
{
    if n > 0 {
        stats_of_same(x, a, y, b, n - 1);
        assert(same_payload(x[n - 1].0, a, b) && y[n - 1].0 == x[n - 1].0);
    }
}

/// The aggregates of entries speak for the payload of each of them.
proof fn stats_of_covers(entries: Seq<(u64, rabitq::Code)>, payloads: Seq<Payload>, n: int)
    requires
        0 <= n <= entries.len(),
    ensures
        stats_of(entries, payloads, n).sound(),
        forall|i: int|
            0 <= i < n && (#[trigger] entries[i]).0 < payloads.len() ==> stats_of(
                entries,
                payloads,
                n,
            ).covers(payload::payload_fields(payloads[entries[i].0 as int])),
    decreases n,
{
    if n > 0 {
        stats_of_covers(entries, payloads, n - 1);
        let before = stats_of(entries, payloads, n - 1);
        let id = entries[n - 1].0;
        if id < payloads.len() {
            let f = payload::payload_fields(payloads[id as int]);
            partition_stats::stats_with_covers(before, f, f);
            assert forall|i: int| 0 <= i < n && (#[trigger] entries[i]).0
                < payloads.len() implies stats_of(entries, payloads, n).covers(
                payload::payload_fields(payloads[entries[i].0 as int]),
            ) by {
                partition_stats::stats_with_covers(
                    before,
                    f,
                    payload::payload_fields(payloads[entries[i].0 as int]),
                );
            }
        }
    }
}

/// Whether one of the first `n` entries has an id.
pub open spec fn listed(entries: Seq<(u64, rabitq::Code)>, id: int, n: int) -> bool {
    exists|i: int| 0 <= i < n && (#[trigger] entries[i]).0 == id
}

/// The last of the first `n` partitions that lists an id; 0 where none does.
pub open spec fn holder(partitions: Seq<Seq<(u64, rabitq::Code)>>, id: int, n: int) -> int
    decreases n,
{
    if n <= 0 {
        0
    } else if listed(partitions[n - 1], id, partitions[n - 1].len() as int) {
        n - 1
    } else {
        holder(partitions, id, n - 1)
    }
}

proof fn holder_bounds(partitions: Seq<Seq<(u64, rabitq::Code)>>, id: int, n: int)
    requires
        0 <= n,
    ensures
        0 <= holder(partitions, id, n),
        n > 0 ==> holder(partitions, id, n) < n,
    decreases n,
{
    if n > 0 {
        holder_bounds(partitions, id, n - 1);
    }
}

/// The partition of each id.
fn find_holders(partitions: &Vec<Vec<(u64, RabitqCode)>>, n: usize) -> (holders: Vec<usize>)
    requires
        forall|p: int, i: int|
            #![trigger partition_views(partitions@)[p][i]]
            0 <= p < partitions@.len() && 0 <= i < partition_views(partitions@)[p].len()
                ==> partition_views(partitions@)[p][i].0 < n,
    ensures
        holders@.len() == n,
        forall|id: int|
            0 <= id < n ==> #[trigger] holders@[id] == holder(
                partition_views(partitions@),
                id,
                partitions@.len() as int,
            ),
{
    let ghost views = partition_views(partitions@);
    let mut holders: Vec<usize> = vec![0usize; n];
    let mut p: usize = 0;
    while p < partitions.len()
        invariant
            p <= partitions@.len(),
            views == partition_views(partitions@),
            holders@.len() == n,
            forall|p: int, i: int|
                #![trigger views[p][i]]
                0 <= p < partitions@.len() && 0 <= i < views[p].len() ==> views[p][i].0 < n,
            forall|id: int| 0 <= id < n ==> #[trigger] holders@[id] == holder(views, id, p as int),
        decreases partitions@.len() - p,
    {
        let entries = &partitions[p];
        let ghost row = views[p as int];
        let mut i: usize = 0;
        while i < entries.len()
            invariant
                p < partitions@.len(),
                i <= entries@.len(),
                row == views[p as int],
                row == entry_views(entries@),
                holders@.len() == n,
                forall|i: int| 0 <= i < row.len() ==> (#[trigger] row[i]).0 < n,
                forall|id: int|
                    0 <= id < n ==> #[trigger] holders@[id] == if listed(row, id, i as int) {
                        p as int
                    } else {
                        holder(views, id, p as int)
                    },
            decreases entries@.len() - i,
        {
            let id: u64 = entries[i].0;
            assert(row[i as int].0 == id);
            let ghost before = holders@;
            holders.set(id as usize, p);
            i += 1;
            proof {
                assert forall|x: int| 0 <= x < n implies #[trigger] holders@[x] == if listed(
                    row,
                    x,
                    i as int,
                ) {
                    p as int
                } else {
                    holder(views, x, p as int)
                } by {
                    if x == id {
                        assert(row[i - 1].0 == x);
                    } else {
                        assert(holders@[x] == before[x]);
                        if listed(row, x, i as int) {
                            let j = choose|j: int| 0 <= j < i && (#[trigger] row[j]).0 == x;
                            assert(j < i - 1);
                            assert(row[j].0 == x);
                            assert(listed(row, x, i - 1));
                        } else if listed(row, x, i - 1) {
                            let j = choose|j: int| 0 <= j < i - 1 && (#[trigger] row[j]).0 == x;
                            assert(row[j].0 == x);
                        }
                    }
                }
            }
        }
        p += 1;
    }
    holders
}

/// The aggregates of each partition.
fn collect_stats(partitions: &Vec<Vec<(u64, RabitqCode)>>, payloads: &Vec<Payload>) -> (stats: Vec<
    PartitionStats,
>)
    ensures
        stats@.len() == partitions@.len(),
        forall|p: int|
            0 <= p < stats@.len() ==> (#[trigger] stats@[p])@ == stats_of(
                entry_views(partitions@[p]@),
                payloads@,
                partitions@[p]@.len() as int,
            ),
{
    let n: usize = payloads.len();
    let mut stats: Vec<PartitionStats> = Vec::with_capacity(partitions.len());
    let mut p: usize = 0;
    while p < partitions.len()
        invariant
            p <= partitions@.len(),
            n == payloads@.len(),
            stats@.len() == p,
            forall|q: int|
                0 <= q < p ==> (#[trigger] stats@[q])@ == stats_of(
                    entry_views(partitions@[q]@),
                    payloads@,
                    partitions@[q]@.len() as int,
                ),
        decreases partitions@.len() - p,
    {
        let entries = &partitions[p];
        let mut s = PartitionStats::new();
        let mut i: usize = 0;
        while i < entries.len()
            invariant
                i <= entries@.len(),
                n == payloads@.len(),
                s@ == stats_of(entry_views(entries@), payloads@, i as int),
            decreases entries@.len() - i,
        {
            let id: u64 = entries[i].0;
            assert(entry_views(entries@)[i as int].0 == id);
            if id < n as u64 {
                s.update(&payloads[id as usize]);
            }
            i += 1;
        }
        stats.push(s);
        p += 1;
    }
    stats
}

/// Each of `rotated` is what the rotating function made of a vector.
pub open spec fn all_rotated<R: Fn(&Vec<u32>, &Vec<u32>) -> Vec<u32>>(
    rotate: R,
    rotation: Vec<u32>,
    vectors: Seq<Vec<u32>>,
    rotated: Seq<Vec<u32>>,
) -> bool {
    &&& rotated.len() == vectors.len()
    &&& forall|i: int|
        0 <= i < vectors.len() ==> call_ensures(
            rotate,
            (&rotation, &vectors[i]),
            #[trigger] rotated[i],
        )
}

/// Each of `norms` is what the norm function made of a vector.
pub open spec fn all_measured<N: Fn(&Vec<u32>) -> u32>(
    norm: N,
    vectors: Seq<Vec<u32>>,
    norms: Seq<u32>,
) -> bool {
    &&& norms.len() == vectors.len()
    &&& forall|i: int|
        0 <= i < vectors.len() ==> call_ensures(norm, (&vectors[i],), #[trigger] norms[i])
}

/// Vectors after a rotation.
pub(crate) fn rotate_all<R: Fn(&Vec<u32>, &Vec<u32>) -> Vec<u32>>(
    rotation: &Vec<u32>,
    vectors: &Vec<Vec<u32>>,
    rotate: &R,
) -> (rotated: Vec<Vec<u32>>)
    requires
        rabitq::keeps_dim(*rotate),
        forall|i: int|
            0 <= i < vectors@.len() ==> rotation@.len() == (#[trigger] vectors@[i])@.len()
                * vectors@[i]@.len(),
    ensures
        all_rotated(*rotate, *rotation, vectors@, rotated@),
        forall|i: int|
            0 <= i < vectors@.len() ==> (#[trigger] rotated@[i])@.len() == vectors@[i]@.len(),
{
    let mut rotated: Vec<Vec<u32>> = Vec::with_capacity(vectors.len());
    let mut i: usize = 0;
    while i < vectors.len()
        invariant
            i <= vectors@.len(),
            rotated@.len() == i,
            rabitq::keeps_dim(*rotate),
            forall|j: int|
                0 <= j < vectors@.len() ==> rotation@.len() == (#[trigger] vectors@[j])@.len()
                    * vectors@[j]@.len(),
            forall|j: int| 0 <= j < i ==> (#[trigger] rotated@[j])@.len() == vectors@[j]@.len(),
            forall|j: int|
                0 <= j < i ==> call_ensures(
                    *rotate,
                    (rotation, &vectors@[j]),
                    #[trigger] rotated@[j],
                ),
        decreases vectors@.len() - i,
    {
        let r: Vec<u32> = rotate(rotation, &vectors[i]);
        rotated.push(r);
        i += 1;
    }
    rotated
}

/// The squared norms of vectors.
pub(crate) fn norm_all<N: Fn(&Vec<u32>) -> u32>(vectors: &Vec<Vec<u32>>, norm: &N) -> (norms: Vec<u32>)
    requires
        forall|v: Vec<u32>| #[trigger] call_requires(*norm, (&v,)),
    ensures
        all_measured(*norm, vectors@, norms@),
{
    let mut norms: Vec<u32> = Vec::with_capacity(vectors.len());
    let mut i: usize = 0;
    while i < vectors.len()
        invariant
            i <= vectors@.len(),
            norms@.len() == i,
            forall|v: Vec<u32>| #[trigger] call_requires(*norm, (&v,)),
            forall|j: int|
                0 <= j < i ==> call_ensures(*norm, (&vectors@[j],), #[trigger] norms@[j]),
        decreases vectors@.len() - i,
    {
        let x: u32 = norm(&vectors[i]);
        norms.push(x);
        i += 1;
    }
    norms
}

/// What `from_parts` makes of the parts of an index.
pub open spec fn assembled<
    R: Fn(&Vec<u32>, &Vec<u32>) -> Vec<u32>,
    N: Fn(&Vec<u32>) -> u32,
    Q: Fn(u32, u32, u32) -> u8,
>(
    rotate: R,
    norm: N,
    quantize: Q,
    config: RabitqConfig,
    coder: RabitqConfig,
    rotation: Vec<u32>,
    centroids: Seq<Vec<u32>>,
    partitions: Seq<Seq<(u64, rabitq::Code)>>,
    raw: Seq<Vec<u32>>,
    payloads: Seq<Payload>,
    next_id: u64,
    m: IndexModel,
) -> bool {
    &&& m.dim == config.dim
    &&& m.config == config
    &&& m.coder == coder
    &&& m.rotation == rotation
    &&& m.centroids == centroids
    &&& all_rotated(rotate, rotation, centroids, m.rotated_centroids)
    &&& all_measured(norm, m.rotated_centroids, m.norms)
    &&& m.partitions == partitions
    &&& m.raw == raw
    &&& m.payloads == payloads
    &&& m.stats == Seq::new(
        partitions.len(),
        |p: int| stats_of(partitions[p], payloads, partitions[p].len() as int),
    )
    &&& all_sq8_built(quantize, m)
    &&& m.id_to_partition == Seq::new(
        raw.len(),
        |id: int| holder(partitions, id, partitions.len() as int) as usize,
    )
    &&& !m.sq8_dirty
    &&& m.next_id == next_id
}

/// Every partition has a centroid, every entry has a vector and a code of the right size, and every
/// vector has the dimension.
pub open spec fn parts_fit(
    dim: int,
    centroids: Seq<Vec<u32>>,
    partitions: Seq<Seq<(u64, rabitq::Code)>>,
    raw: Seq<Vec<u32>>,
) -> bool {
    &&& centroids.len() == partitions.len()
    &&& clustering::all_of_dim(centroids, dim)
    &&& forall|i: int| 0 <= i < raw.len() ==> (#[trigger] raw[i])@.len() == dim
    &&& forall|p: int, i: int|
        #![trigger partitions[p][i]]
        0 <= p < partitions.len() && 0 <= i < partitions[p].len() ==> partitions[p][i].0 < raw.len()
            && partitions[p][i].1.bits.len() == dim / 8
}

impl IvfRabitqIndex {
    /// An index of parts that were stored: the aggregates, the rotated centroids, the SQ8 codes
    /// and the partition of each id are worked out anew.
    pub fn from_parts<
        R: Fn(&Vec<u32>, &Vec<u32>) -> Vec<u32>,
        N: Fn(&Vec<u32>) -> u32,
        Q: Fn(u32, u32, u32) -> u8,
    >(
        config: RabitqConfig,
        quantizer: RabitqQuantizer,
        centroids: Vec<Vec<u32>>,
        partitions: Vec<Vec<(u64, RabitqCode)>>,
        raw: Vec<Vec<u32>>,
        payloads: Vec<Payload>,
        next_id: u64,
        rotate: &R,
        norm: &N,
        quantize: &Q,
    ) -> (index: Self)
        requires
            quantizer.wf(),
            quantizer.dim() == config.dim,
            parts_fit(config.dim as int, centroids@, partition_views(partitions@), raw@),
            rabitq::keeps_dim(*rotate),
            forall|v: Vec<u32>| #[trigger] call_requires(*norm, (&v,)),
            forall|v: u32, lo: u32, hi: u32| #[trigger] call_requires(*quantize, (v, lo, hi)),
        ensures
            index.wf(),
            index@.wf(),
            assembled(
                *rotate,
                *norm,
                *quantize,
                config,
                quantizer.settings(),
                quantizer.matrix(),
                centroids@,
                partition_views(partitions@),
                raw@,
                payloads@,
                next_id,
                index@,
            ),
    {
        let ghost dim = config.dim as int;
        let ghost views = partition_views(partitions@);
        let id_to_partition = find_holders(&partitions, raw.len());
        let partition_stats = collect_stats(&partitions, &payloads);
        let rotated_centroids = rotate_all(quantizer.rotation_matrix(), &centroids, rotate);
        let norms = norm_all(&rotated_centroids, norm);
        let sq8 = build_all_sq8(&partitions, &raw, quantize, Ghost(dim));
        let index = IvfRabitqIndex {
            config,
            quantizer,
            centroids,
            rotated_centroids,
            rotated_centroid_norms_sq: norms,
            partitions,
            raw,
            payloads,
            partition_stats,
            sq8,
            id_to_partition,
            sq8_dirty: false,
            next_id,
        };
        proof {
            let m = index@;
            assert(m.stats =~= Seq::new(
                views.len(),
                |p: int| stats_of(views[p], m.payloads, views[p].len() as int),
            ));
            assert forall|p: int, i: int|
                #![trigger m.partitions[p][i]]
                0 <= p < m.partitions.len() && 0 <= i < m.partitions[p].len() implies m.entry_wf(
                p,
                i,
            ) by {
                assert(views[p][i].0 < m.raw.len());
                stats_of_covers(views[p], m.payloads, views[p].len() as int);
            }
            assert forall|p: int| 0 <= p < m.stats.len() implies (#[trigger] m.stats[p]).sound() by {
                stats_of_covers(views[p], m.payloads, views[p].len() as int);
            }
            assert forall|id: int|
                0 <= id < m.raw.len() && m.partitions.len() > 0 implies #[trigger] m.id_to_partition[id]
                < m.partitions.len() by {
                holder_bounds(views, id, views.len() as int);
            }
            assert(m.id_to_partition =~= Seq::new(
                m.raw.len(),
                |id: int| holder(views, id, views.len() as int) as usize,
            ));
            assert forall|p: int| 0 <= p < m.partitions.len() implies sq8::built_from(
                *quantize,
                entry_rows(m.partitions[p], m.raw),
                #[trigger] m.sq8[p],
            ) by {
                assert(m.partitions[p] == entry_views(index.partitions@[p]@));
            }
        }
        index
    }
}

/// A partition holds, in order, the ids that are assigned to it, with their codes.
pub open spec fn partition_filled<
    R: Fn(&Vec<u32>, &Vec<u32>) -> Vec<u32>,
    C: Fn(&Vec<u32>, u32) -> (u32, u32),
>(
    rotate: R,
    corrections: C,
    rotation: Vec<u32>,
    coder: RabitqConfig,
    vectors: Seq<Vec<u32>>,
    assignment: Seq<usize>,
    p: int,
    n: int,
    entries: Seq<(u64, rabitq::Code)>,
) -> bool {
    let ids = clustering::members(assignment, p, n);
    &&& entries.len() == ids.len()
    &&& forall|j: int|
        0 <= j < entries.len() ==> {
            &&& (#[trigger] entries[j]).0 == ids[j]
            &&& entries[j].1.bits.len() == coder.dim as int / 8
            &&& rabitq::encoded_by(
                rotate,
                corrections,
                rotation,
                coder.epsilon_0,
                vectors[ids[j] as int],
                entries[j].1,
            )
        }
}

/// Partitions that hold exactly the ids assigned to them number the ids in sequence.
proof fn filled_is_numbered<
    R: Fn(&Vec<u32>, &Vec<u32>) -> Vec<u32>,
    C: Fn(&Vec<u32>, u32) -> (u32, u32),
>(rotate: R, corrections: C, m: IndexModel, assignment: Seq<usize>)
    requires
        m.wf(),
        assignment.len() == m.raw.len(),
        m.raw.len() <= usize::MAX,
        m.payloads.len() == m.raw.len(),
        m.next_id == m.raw.len(),
        forall|i: int|
            0 <= i < assignment.len() ==> #[trigger] assignment[i] < m.partitions.len(),
        m.id_to_partition == Seq::new(
            m.raw.len(),
            |id: int| holder(m.partitions, id, m.partitions.len() as int) as usize,
        ),
        forall|p: int|
            0 <= p < m.partitions.len() ==> partition_filled(
                rotate,
                corrections,
                m.rotation,
                m.coder,
                m.raw,
                assignment,
                p,
                m.raw.len() as int,
                #[trigger] m.partitions[p],
            ),
    ensures
        m.id_to_partition == assignment,
        m.numbered(),
{
    let n = m.raw.len() as int;
    assert forall|id: int, p: int|
        0 <= id < n && 0 <= p < m.partitions.len() implies (#[trigger] listed(
        m.partitions[p],
        id,
        m.partitions[p].len() as int,
    ) <==> assignment[id] == p) by {
        clustering::members_are_assigned(assignment, p, n);
        let ids = clustering::members(assignment, p, n);
        assert(partition_filled(
            rotate,
            corrections,
            m.rotation,
            m.coder,
            m.raw,
            assignment,
            p,
            n,
            m.partitions[p],
        ));
        if assignment[id] == p {
            assert(ids.contains(id as usize));
            let j = choose|j: int| 0 <= j < ids.len() && ids[j] == id as usize;
            assert(m.partitions[p][j].0 == id);
        }
        if listed(m.partitions[p], id, m.partitions[p].len() as int) {
            let j = choose|j: int|
                0 <= j < m.partitions[p].len() && (#[trigger] m.partitions[p][j]).0 == id;
            assert(m.partitions[p][j].0 == ids[j]);
        }
    }
    assert forall|id: int| 0 <= id < n implies #[trigger] m.id_to_partition[id] == assignment[id] by {
        holder_is_assigned(m.partitions, assignment, id, m.partitions.len() as int);
    }
    assert(m.id_to_partition =~= assignment);
    assert forall|p: int, i: int|
        #![trigger m.partitions[p][i]]
        0 <= p < m.partitions.len() && 0 <= i
            < m.partitions[p].len() implies m.id_to_partition[m.partitions[p][i].0 as int] == p by {
        let id = m.partitions[p][i].0 as int;
        assert(m.entry_wf(p, i));
        assert(listed(m.partitions[p], id, m.partitions[p].len() as int));
    }
    assert forall|id: int| 0 <= id < n implies m.has_entry(
        #[trigger] m.id_to_partition[id] as int,
        id,
    ) by {
        let p = assignment[id] as int;
        assert(listed(m.partitions[p], id, m.partitions[p].len() as int));
        let j = choose|j: int|
            0 <= j < m.partitions[p].len() && (#[trigger] m.partitions[p][j]).0 == id;
        assert(m.partitions[p][j].0 == id);
    }
    assert forall|p: int| 0 <= p < m.partitions.len() implies distinct_ids(
        #[trigger] m.partitions[p],
    ) by {
        clustering::members_are_assigned(assignment, p, n);
        let ids = clustering::members(assignment, p, n);
        assert forall|i: int, j: int| 0 <= i < j < m.partitions[p].len() implies (
        #[trigger] m.partitions[p][i]).0 != (#[trigger] m.partitions[p][j]).0 by {
            assert(m.partitions[p][i].0 == ids[i]);
            assert(m.partitions[p][j].0 == ids[j]);
        }
    }
}

proof fn holder_is_assigned(
    partitions: Seq<Seq<(u64, rabitq::Code)>>,
    assignment: Seq<usize>,
    id: int,
    n: int,
)
    requires
        0 <= n <= partitions.len(),
        0 <= id < assignment.len(),
        assignment[id] < partitions.len(),
        forall|p: int|
            0 <= p < partitions.len() ==> (#[trigger] listed(
                partitions[p],
                id,
                partitions[p].len() as int,
            ) <==> assignment[id] == p),
    ensures
        assignment[id] < n ==> holder(partitions, id, n) == assignment[id],
    decreases n,
{
    if n > 0 {
        holder_is_assigned(partitions, assignment, id, n - 1);
        assert(listed(partitions[n - 1], id, partitions[n - 1].len() as int) <==> assignment[id]
            == n - 1);
    }
}

/// The index of a set of vectors: centroids that were trained on them, and every vector in the
/// partition of its nearest centroid.
pub open spec fn built_over<
    D: Fn(&Vec<u32>, &Vec<u32>) -> u32,
    M: Fn(&Vec<usize>) -> Vec<u32>,
    S: Fn(&Vec<u32>) -> Vec<u32>,
    T: Fn(u32) -> u32,
    R: Fn(&Vec<u32>, &Vec<u32>) -> Vec<u32>,
    C: Fn(&Vec<u32>, u32) -> (u32, u32),
    N: Fn(&Vec<u32>) -> u32,
    Q: Fn(u32, u32, u32) -> u8,
>(
    dist: D,
    mean: M,
    running_sums: S,
    draw: T,
    rotate: R,
    corrections: C,
    norm: N,
    quantize: Q,
    rotation: Vec<u32>,
    vectors: Seq<Vec<u32>>,
    m: IndexModel,
) -> bool {
    let n = vectors.len() as int;
    &&& crate::partitioning::suits(n, m.partitions.len() as int)
    &&& clustering::clustered(
        dist,
        mean,
        running_sums,
        draw,
        vectors,
        m.partitions.len() as int,
        20,
        m.centroids,
    )
    &&& clustering::assigned(dist, vectors, m.centroids, m.id_to_partition)
    &&& forall|p: int|
        0 <= p < m.partitions.len() ==> partition_filled(
            rotate,
            corrections,
            rotation,
            m.coder,
            vectors,
            m.id_to_partition,
            p,
            n,
            #[trigger] m.partitions[p],
        )
    &&& m.payloads.len() == n
    &&& forall|i: int|
        0 <= i < n ==> payload::payload_fields(#[trigger] m.payloads[i]).is_empty()
    &&& assembled(
        rotate,
        norm,
        quantize,
        m.config,
        m.coder,
        rotation,
        m.centroids,
        m.partitions,
        vectors,
        m.payloads,
        n as u64,
        m,
    )
}

/// Partitions without entries.
fn empty_partitions(n: usize) -> (partitions: Vec<Vec<(u64, RabitqCode)>>)
    ensures
        partitions@.len() == n,
        forall|p: int| 0 <= p < n ==> (#[trigger] partitions@[p])@.len() == 0,
{
    let mut partitions: Vec<Vec<(u64, RabitqCode)>> = Vec::with_capacity(n);
    let mut p: usize = 0;
    while p < n
        invariant
            p <= n,
            partitions@.len() == p,
            forall|q: int| 0 <= q < p ==> (#[trigger] partitions@[q])@.len() == 0,
        decreases n - p,
    {
        partitions.push(Vec::new());
        p += 1;
    }
    partitions
}

impl IvfRabitqIndex {
    /// The index of a set of vectors.
    ///
    /// `dist`, `mean`, `running_sums` and `draw` are the arithmetic of training, `rotate`,
    /// `corrections` and `norm` that of codes, and `quantize` that of SQ8 codes.
    pub fn build<
        D: Fn(&Vec<u32>, &Vec<u32>) -> u32,
        M: Fn(&Vec<usize>) -> Vec<u32>,
        S: Fn(&Vec<u32>) -> Vec<u32>,
        T: Fn(u32) -> u32,
        R: Fn(&Vec<u32>, &Vec<u32>) -> Vec<u32>,
        C: Fn(&Vec<u32>, u32) -> (u32, u32),
        N: Fn(&Vec<u32>) -> u32,
        Q: Fn(u32, u32, u32) -> u8,
    >(
        vectors: Vec<Vec<u32>>,
        config: RabitqConfig,
        quantizer: RabitqQuantizer,
        dist: &D,
        mean: &M,
        running_sums: &S,
        draw: &T,
        rotate: &R,
        corrections: &C,
        norm: &N,
        quantize: &Q,
    ) -> (index: Self)
        requires
            vectors@.len() > 0,
            quantizer.wf(),
            quantizer.dim() == config.dim,
            forall|i: int| 0 <= i < vectors@.len() ==> (#[trigger] vectors@[i])@.len() == config.dim,
            clustering::compares_equals(*dist),
            clustering::takes_places(*mean, vectors@.len() as int),
            clustering::means_of_dim(*mean, config.dim as int),
            clustering::sums_all(*running_sums),
            forall|total: u32| #[trigger] call_requires(*draw, (total,)),
            rabitq::keeps_dim(*rotate),
            forall|r: Vec<u32>, e: u32| #[trigger] call_requires(*corrections, (&r, e)),
            forall|v: Vec<u32>| #[trigger] call_requires(*norm, (&v,)),
            forall|v: u32, lo: u32, hi: u32| #[trigger] call_requires(*quantize, (v, lo, hi)),
        ensures
            index.wf(),
            index@.wf(),
            index@.numbered(),
            index@.config == config,
            index@.coder == quantizer.settings(),
            built_over(
                *dist,
                *mean,
                *running_sums,
                *draw,
                *rotate,
                *corrections,
                *norm,
                *quantize,
                quantizer.matrix(),
                vectors@,
                index@,
            ),
    {
        let n: usize = vectors.len();
        let count: usize = default_num_partitions(n);
        let centroids = clustering::kmeans(&vectors, count, 20, dist, mean, running_sums, draw);
        let ghost dim = config.dim as int;
        let ghost coder = quantizer.settings();
        assert(vectors@[0]@.len() == dim);
        let ghost rotation = quantizer.matrix();
        let mut partitions = empty_partitions(count);
        let mut assignment: Vec<usize> = Vec::with_capacity(n);
        let mut payloads: Vec<Payload> = Vec::with_capacity(n);
        let mut id: usize = 0;
        proof {
            assert forall|p: int| 0 <= p < count implies partition_filled(
                *rotate,
                *corrections,
                rotation,
                coder,
                vectors@,
                assignment@,
                p,
                0,
                #[trigger] entry_views(partitions@[p]@),
            ) by {
                assert(entry_views(partitions@[p]@).len() == 0);
            }
        }
        while id < n
            invariant
                n == vectors@.len(),
                id <= n,
                0 < centroids@.len(),
                centroids@.len() == count,
                clustering::all_of_dim(centroids@, dim),
                partitions@.len() == count,
                assignment@.len() == id,
                payloads@.len() == id,
                dim == config.dim,
                quantizer.wf(),
                coder == quantizer.settings(),
                coder.dim == dim,
                rotation == quantizer.matrix(),
                forall|i: int| 0 <= i < n ==> (#[trigger] vectors@[i])@.len() == dim,
                clustering::compares_equals(*dist),
                rabitq::keeps_dim(*rotate),
                forall|r: Vec<u32>, e: u32| #[trigger] call_requires(*corrections, (&r, e)),
                forall|i: int| 0 <= i < id ==> #[trigger] assignment@[i] < centroids@.len(),
                forall|i: int|
                    0 <= i < id ==> #[trigger] clustering::nearest_by(
                        *dist,
                        vectors@[i],
                        centroids@,
                        assignment@[i],
                    ),
                forall|i: int|
                    0 <= i < id ==> payload::payload_fields(#[trigger] payloads@[i]).is_empty(),
                forall|p: int|
                    0 <= p < count ==> partition_filled(
                        *rotate,
                        *corrections,
                        rotation,
                        coder,
                        vectors@,
                        assignment@,
                        p,
                        id as int,
                        #[trigger] entry_views(partitions@[p]@),
                    ),
            decreases n - id,
        {
            let row = clustering::distance_row(dist, &vectors[id], &centroids);
            let pid: usize = clustering::nearest_partition(row.as_slice());
            let code = quantizer.encode(&vectors[id], rotate, corrections);
            let ghost before = partitions@;
            let ghost assigned = assignment@;
            let ghost c = code@;
            assert(clustering::nearest_by(*dist, vectors@[id as int], centroids@, pid));
            partitions[pid].push((id as u64, code));
            assignment.push(pid);
            payloads.push(payload::empty_payload());
            proof {
                assert forall|p: int| 0 <= p < count implies partition_filled(
                    *rotate,
                    *corrections,
                    rotation,
                    coder,
                    vectors@,
                    assignment@,
                    p,
                    id + 1,
                    #[trigger] entry_views(partitions@[p]@),
                ) by {
                    assert(partition_filled(
                        *rotate,
                        *corrections,
                        rotation,
                        coder,
                        vectors@,
                        assigned,
                        p,
                        id as int,
                        entry_views(before[p]@),
                    ));
                    members_prefix(assigned, assignment@, p, id as int);
                    if p == pid {
                        assert(entry_views(partitions@[p]@) =~= entry_views(before[p]@).push(
                            (id as u64, c),
                        ));
                    } else {
                        assert(partitions@[p] == before[p]);
                    }
                }
                assert forall|i: int| 0 <= i < id + 1 implies #[trigger] clustering::nearest_by(
                    *dist,
                    vectors@[i],
                    centroids@,
                    assignment@[i],
                ) by {
                    if i < id {
                        assert(clustering::nearest_by(
                            *dist,
                            vectors@[i],
                            centroids@,
                            assigned[i],
                        ));
                    }
                }
            }
            id += 1;
        }
        proof {
            let views = partition_views(partitions@);
            assert forall|p: int| 0 <= p < count implies partition_filled(
                *rotate,
                *corrections,
                rotation,
                coder,
                vectors@,
                assignment@,
                p,
                n as int,
                #[trigger] views[p],
            ) by {
                assert(views[p] == entry_views(partitions@[p]@));
            }
            assert forall|p: int, i: int|
                #![trigger views[p][i]]
                0 <= p < views.len() && 0 <= i < views[p].len() implies views[p][i].0
                < vectors@.len() && views[p][i].1.bits.len() == dim / 8 by {
                clustering::members_are_assigned(assignment@, p, n as int);
                assert(views[p][i].0 == clustering::members(assignment@, p, n as int)[i]);
            }
        }
        let ghost all = vectors@;
        let index = Self::from_parts(
            config,
            quantizer,
            centroids,
            partitions,
            vectors,
            payloads,
            n as u64,
            rotate,
            norm,
            quantize,
        );
        proof {
            filled_is_numbered(*rotate, *corrections, index@, assignment@);
            assert(clustering::assigned(*dist, all, index@.centroids, index@.id_to_partition));
        }
        index
    }
}

/// The members among the first places do not depend on what is assigned to later ones.
proof fn members_prefix(a: Seq<usize>, b: Seq<usize>, p: int, n: int)
    requires
        0 <= n <= a.len(),
        n <= b.len(),
        forall|i: int| 0 <= i < n ==> a[i] == b[i],
    ensures
        clustering::members(a, p, n) == clustering::members(b, p, n),
    decreases n,
{
    if n > 0 {
        members_prefix(a, b, p, n - 1);
    }
}

/// Every id is marked that has an entry before entry `i` of partition `p`.
spec fn marks(m: IndexModel, seen: Seq<bool>, p: int, i: int) -> bool {
    &&& seen.len() == m.raw.len()
    &&& forall|q: int, j: int|
        #![trigger m.partitions[q][j]]
        entry_before(m, q, j, p, i) ==> seen[m.partitions[q][j].0 as int]
    &&& forall|id: int| 0 <= id < seen.len() && #[trigger] seen[id] ==> m.has_entry(
        m.id_to_partition[id] as int,
        id,
    )
}

/// An entry stands before entry `i` of partition `p`.
spec fn entry_before(m: IndexModel, q: int, j: int, p: int, i: int) -> bool {
    &&& 0 <= q < m.partitions.len()
    &&& 0 <= j < m.partitions[q].len()
    &&& q < p || q == p && j < i
}

/// The entries before entry `i` of partition `p` are in the partitions noted for them, and no id
/// occurs twice in a partition.
spec fn in_place(m: IndexModel, p: int, i: int) -> bool {
    &&& forall|q: int, j: int|
        #![trigger m.partitions[q][j]]
        entry_before(m, q, j, p, i) ==> m.id_to_partition[m.partitions[q][j].0 as int] == q
    &&& forall|q: int, a: int, b: int|
        #![trigger m.partitions[q][a], m.partitions[q][b]]
        0 <= a < b && entry_before(m, q, b, p, i) ==> m.partitions[q][a].0 != m.partitions[q][b].0
}

impl IvfRabitqIndex {
    /// Whether the ids are 0, 1, 2 and so on, each with a payload and with exactly one entry, which
    /// is in the partition noted for it.
    pub fn is_numbered(&self) -> (r: bool)
        requires
            self.wf(),
        ensures
            r == self@.numbered(),
    {
        let ghost m = self@;
        let n: usize = self.raw.len();
        if self.next_id != n as u64 || self.payloads.len() != n {
            return false;
        }
        let mut seen: Vec<bool> = vec![false; n];
        let mut p: usize = 0;
        while p < self.partitions.len()
            invariant
                p <= self.partitions@.len(),
                self.wf(),
                m == self@,
                n == m.raw.len(),
                m.next_id == n,
                m.payloads.len() == n,
                marks(m, seen@, p as int, 0),
                marked_by_entry(m, seen@, p as int, 0),
                in_place(m, p as int, 0),
            decreases self.partitions@.len() - p,
        {
            let entries = &self.partitions[p];
            let ghost views = m.partitions[p as int];
            assert(views == entry_views(entries@));
            let mut i: usize = 0;
            while i < entries.len()
                invariant
                    i <= entries@.len(),
                    p < self.partitions@.len(),
                    self.wf(),
                    m == self@,
                    n == m.raw.len(),
                    m.next_id == n,
                    m.payloads.len() == n,
                    views == m.partitions[p as int],
                    views == entry_views(entries@),
                    marks(m, seen@, p as int, i as int),
                    marked_by_entry(m, seen@, p as int, i as int),
                    in_place(m, p as int, i as int),
                decreases entries@.len() - i,
            {
                let id: u64 = entries[i].0;
                assert(m.partitions[p as int][i as int].0 == id);
                assert(m.entry_wf(p as int, i as int));
                if self.id_to_partition[id as usize] != p {
                    return false;
                }
                if seen[id as usize] {
                    proof {
                        taken_twice(m, p as int, i as int, seen@);
                    }
                    return false;
                }
                let ghost before = seen@;
                seen.set(id as usize, true);
                proof {
                    assert forall|q: int, j: int|
                        #![trigger m.partitions[q][j]]
                        entry_before(m, q, j, p as int, i + 1) implies seen@[m.partitions[q][j].0 as int]
                        && m.id_to_partition[m.partitions[q][j].0 as int] == q by {
                        assert(m.entry_wf(q, j));
                        if !(q == p && j == i) {
                            assert(entry_before(m, q, j, p as int, i as int));
                        }
                    }
                    assert forall|q: int, a: int, b: int|
                        #![trigger m.partitions[q][a], m.partitions[q][b]]
                        0 <= a < b && entry_before(
                            m,
                            q,
                            b,
                            p as int,
                            i + 1,
                        ) implies m.partitions[q][a].0 != m.partitions[q][b].0 by {
                        if q == p && b == i {
                            assert(entry_before(m, q, a, p as int, i as int));
                            assert(before[m.partitions[q][a].0 as int]);
                        } else {
                            assert(entry_before(m, q, b, p as int, i as int));
                        }
                    }
                    assert forall|x: int| 0 <= x < seen@.len() && #[trigger] seen@[x] implies m.has_entry(
                        m.id_to_partition[x] as int,
                        x,
                    ) && entry_of_id(m, x, p as int, i + 1) by {
                        if x == id {
                            assert(m.partitions[p as int][i as int].0 == x);
                            assert(entry_before(m, p as int, i as int, p as int, i + 1));
                        } else {
                            assert(before[x]);
                            assert(entry_of_id(m, x, p as int, i as int));
                            let (q, j) = choose|q: int, j: int|
                                #[trigger] entry_before(m, q, j, p as int, i as int)
                                    && m.partitions[q][j].0 == x;
                            assert(entry_before(m, q, j, p as int, i + 1));
                        }
                    }
                }
                i += 1;
            }
            assert forall|q: int, j: int|
                #![trigger m.partitions[q][j]]
                entry_before(m, q, j, p + 1, 0) implies entry_before(m, q, j, p as int, i as int) by {}
            assert forall|x: int| 0 <= x < seen@.len() && #[trigger] seen@[x] implies entry_of_id(
                m,
                x,
                p + 1,
                0,
            ) by {
                assert(entry_of_id(m, x, p as int, i as int));
                let (q, j) = choose|q: int, j: int|
                    #[trigger] entry_before(m, q, j, p as int, i as int) && m.partitions[q][j].0 == x;
                assert(entry_before(m, q, j, p + 1, 0));
            }
            p += 1;
        }
        let mut x: usize = 0;
        while x < n
            invariant
                x <= n,
                m == self@,
                p == m.partitions.len(),
                n == m.raw.len(),
                marks(m, seen@, p as int, 0),
                in_place(m, p as int, 0),
                forall|y: int| 0 <= y < x ==> #[trigger] seen@[y],
            decreases n - x,
        {
            if !seen[x] {
                proof {
                    if m.numbered() {
                        let q = m.id_to_partition[x as int] as int;
                        assert(m.has_entry(q, x as int));
                        let j = choose|j: int|
                            0 <= j < m.partitions[q].len() && (#[trigger] m.partitions[q][j]).0 == x;
                        assert(entry_before(m, q, j, p as int, 0));
                    }
                }
                return false;
            }
            x += 1;
        }
        proof {
            assert forall|q: int, j: int|
                #![trigger m.partitions[q][j]]
                0 <= q < m.partitions.len() && 0 <= j < m.partitions[q].len() implies
                m.id_to_partition[m.partitions[q][j].0 as int] == q by {
                assert(entry_before(m, q, j, p as int, 0));
            }
            assert forall|q: int| 0 <= q < m.partitions.len() implies distinct_ids(
                #[trigger] m.partitions[q],
            ) by {
                assert forall|a: int, b: int| 0 <= a < b < m.partitions[q].len() implies (
                #[trigger] m.partitions[q][a]).0 != (#[trigger] m.partitions[q][b]).0 by {
                    assert(entry_before(m, q, b, p as int, 0));
                }
            }
            assert forall|id: int| 0 <= id < m.raw.len() implies m.has_entry(
                #[trigger] m.id_to_partition[id] as int,
                id,
            ) by {
                assert(seen@[id]);
            }
        }
        true
    }
}

/// An id that was marked before its entry has another entry, so the ids are not in sequence.
proof fn taken_twice(m: IndexModel, p: int, i: int, seen: Seq<bool>)
    requires
        0 <= p < m.partitions.len(),
        0 <= i < m.partitions[p].len(),
        m.partitions[p][i].0 < m.raw.len(),
        seen.len() == m.raw.len(),
        m.id_to_partition[m.partitions[p][i].0 as int] == p,
        seen[m.partitions[p][i].0 as int],
        in_place(m, p, i),
        marked_by_entry(m, seen, p, i),
    ensures
        !m.numbered(),
{
    let id = m.partitions[p][i].0;
    assert(entry_of_id(m, id as int, p, i));
    let (q, j) = choose|q: int, j: int|
        #[trigger] entry_before(m, q, j, p, i) && m.partitions[q][j].0 == id as int;
    assert(m.id_to_partition[m.partitions[q][j].0 as int] == q);
    assert(q == p && j < i);
    if m.numbered() {
        assert(distinct_ids(m.partitions[p]));
        assert(m.partitions[p][j].0 != m.partitions[p][i].0);
    }
}

/// Every mark comes of an entry.
spec fn marked_by_entry(m: IndexModel, seen: Seq<bool>, p: int, i: int) -> bool {
    forall|id: int|
        0 <= id < seen.len() && #[trigger] seen[id] ==> entry_of_id(m, id, p, i)
}

/// An id has an entry before entry `i` of partition `p`.
spec fn entry_of_id(m: IndexModel, id: int, p: int, i: int) -> bool {
    exists|q: int, j: int| #[trigger] entry_before(m, q, j, p, i) && m.partitions[q][j].0 == id
}

/// An index that is made anew of the parts of one whose ids are in sequence has its ids in
/// sequence.
pub proof fn remade_is_numbered(m: IndexModel, back: IndexModel)
    requires
        m.wf(),
        m.numbered(),
        back.partitions == m.partitions,
        back.raw.len() == m.raw.len(),
        back.payloads.len() == m.payloads.len(),
        back.next_id == m.next_id,
        back.id_to_partition == Seq::new(
            back.raw.len(),
            |id: int| holder(back.partitions, id, back.partitions.len() as int) as usize,
        ),
    ensures
        back.numbered(),
{
    let n = m.partitions.len() as int;
    assert forall|id: int| 0 <= id < m.raw.len() implies #[trigger] back.id_to_partition[id]
        == m.id_to_partition[id] by {
        let home = m.id_to_partition[id] as int;
        assert(m.has_entry(home, id));
        assert forall|p: int| 0 <= p < n implies (#[trigger] listed(
            m.partitions[p],
            id,
            m.partitions[p].len() as int,
        ) <==> home == p) by {
            if listed(m.partitions[p], id, m.partitions[p].len() as int) {
                let i = choose|i: int|
                    0 <= i < m.partitions[p].len() && (#[trigger] m.partitions[p][i]).0 == id;
                assert(m.id_to_partition[m.partitions[p][i].0 as int] == p);
            }
        }
        holder_is_assigned(m.partitions, m.id_to_partition, id, n);
    }
    assert forall|p: int, i: int|
        #![trigger back.partitions[p][i]]
        0 <= p < back.partitions.len() && 0 <= i < back.partitions[p].len() implies
        back.id_to_partition[back.partitions[p][i].0 as int] == p by {
        assert(m.entry_wf(p, i));
        assert(m.id_to_partition[m.partitions[p][i].0 as int] == p);
    }
    assert forall|id: int| 0 <= id < back.raw.len() implies back.has_entry(
        #[trigger] back.id_to_partition[id] as int,
        id,
    ) by {
        assert(m.has_entry(m.id_to_partition[id] as int, id));
        let p = m.id_to_partition[id] as int;
        let i = choose|i: int|
            0 <= i < m.partitions[p].len() && (#[trigger] m.partitions[p][i]).0 == id;
        assert(back.partitions[p][i].0 == id);
    }
}

} // verus!
