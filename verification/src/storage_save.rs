//! Lays an index out in bytes.

use crate::blocks;
use crate::checksum;
use crate::index_ivf_rq::{IndexModel, IvfRabitqIndex, RabitqCode};
use crate::index_ivf_rq;
use crate::little_endian;
use crate::payload;
use crate::rabitq;
use crate::storage::StorageError;
use crate::storage_format::{Header, Manifest, PartitionMeta};
use crate::storage_format;
use vstd::prelude::*;
use vstd::slice::slice_subrange;

verus! {

/// The bytes of vectors, one after another.
pub open spec fn row_bytes(rows: Seq<Vec<u32>>) -> Seq<Seq<u8>> {
    Seq::new(rows.len(), |i: int| blocks::words_to_bytes(rows[i]@))
}

/// The bytes of an entry.
pub open spec fn entry_bytes(entry: (u64, rabitq::Code)) -> Seq<u8> {
    little_endian::le_bytes(entry.0 as nat, 8) + entry.1.bits + little_endian::le_bytes(
        entry.1.alpha as nat,
        4,
    ) + little_endian::le_bytes(entry.1.beta as nat, 4)
}

/// The bytes of each entry of a partition.
pub open spec fn entry_blocks(entries: Seq<(u64, rabitq::Code)>) -> Seq<Seq<u8>> {
    Seq::new(entries.len(), |i: int| entry_bytes(entries[i]))
}

/// The bytes of each partition.
pub open spec fn partition_blocks(partitions: Seq<Seq<(u64, rabitq::Code)>>) -> Seq<Seq<u8>> {
    Seq::new(partitions.len(), |p: int| blocks::joined(entry_blocks(partitions[p])))
}

/// What is noted of partition `p` where the entries begin at `start`.
pub open spec fn meta_of(
    partitions: Seq<Seq<(u64, rabitq::Code)>>,
    start: int,
    p: int,
) -> PartitionMeta {
    let parts = partition_blocks(partitions);
    PartitionMeta {
        offset: (start + blocks::joined(parts.take(p)).len()) as u64,
        len: parts[p].len() as u64,
        count: partitions[p].len() as u64,
    }
}

/// What is noted of each partition, as bytes.
pub open spec fn meta_blocks(partitions: Seq<Seq<(u64, rabitq::Code)>>, start: int) -> Seq<Seq<u8>> {
    Seq::new(partitions.len(), |p: int| meta_of(partitions, start, p).bytes())
}

/// Where the parts of a file end, one after another.
pub struct Layout {
    pub rotation: int,
    pub centroids: int,
    pub data: int,
    pub metas: int,
    pub raw: int,
    pub payload: int,
}

/// The parts of a file between the header and the manifest.
pub open spec fn rotation_part(m: IndexModel) -> Seq<u8> {
    blocks::words_to_bytes(m.rotation@)
}

pub open spec fn centroid_part(m: IndexModel) -> Seq<u8> {
    blocks::joined(row_bytes(m.centroids))
}

pub open spec fn data_part(m: IndexModel) -> Seq<u8> {
    blocks::joined(partition_blocks(m.partitions))
}

pub open spec fn meta_part(m: IndexModel, start: int) -> Seq<u8> {
    blocks::joined(meta_blocks(m.partitions, start))
}

pub open spec fn raw_part(m: IndexModel) -> Seq<u8> {
    blocks::joined(row_bytes(m.raw))
}

/// Where the parts of the file of an index end.
pub open spec fn layout_of(m: IndexModel, json: Seq<u8>) -> Layout {
    let rotation = 148 + rotation_part(m).len();
    let centroids = rotation + centroid_part(m).len();
    let data = centroids + data_part(m).len();
    let metas = data + meta_part(m, centroids as int).len();
    let raw = metas + raw_part(m).len();
    let payload = raw + json.len();
    Layout {
        rotation: rotation as int,
        centroids: centroids as int,
        data: data as int,
        metas: metas as int,
        raw: raw as int,
        payload: payload as int,
    }
}

/// The header of the file of an index.
pub open spec fn header_for(m: IndexModel, json: Seq<u8>) -> Header {
    let at = layout_of(m, json);
    Header {
        magic: storage_format::MAGIC,
        version: storage_format::FORMAT_VERSION,
        dim: m.dim as u32,
        num_partitions: m.partitions.len() as u32,
        num_vectors: m.raw.len() as u64,
        next_id: m.next_id,
        rotation_offset: 148,
        rotation_len: (at.rotation - 148) as u64,
        centroids_offset: at.rotation as u64,
        centroids_len: (at.centroids - at.rotation) as u64,
        partition_meta_offset: at.data as u64,
        partition_meta_len: (at.metas - at.data) as u64,
        partition_data_offset: at.centroids as u64,
        partition_data_len: (at.data - at.centroids) as u64,
        raw_offset: at.metas as u64,
        raw_len: (at.raw - at.metas) as u64,
        payload_offset: at.raw as u64,
        payload_len: (at.payload - at.raw) as u64,
        manifest_offset: at.payload as u64,
        manifest_len: 16,
    }
}

/// What stands between the header and the manifest.
pub open spec fn contents(m: IndexModel, json: Seq<u8>) -> Seq<u8> {
    rotation_part(m) + centroid_part(m) + data_part(m) + meta_part(
        m,
        layout_of(m, json).centroids,
    ) + raw_part(m) + json
}

/// What stands behind the header, with a checksum in the manifest.
pub open spec fn body(m: IndexModel, json: Seq<u8>, checksum: u32) -> Seq<u8> {
    contents(m, json) + (Manifest { version: m.next_id, checksum }).bytes()
}

/// The file of an index.
pub open spec fn index_file(m: IndexModel, json: Seq<u8>) -> Seq<u8> {
    header_for(m, json).bytes() + body(m, json, checksum::crc_of(body(m, json, 0)))
}

/// Appends vectors.
fn push_rows(out: &mut Vec<u8>, rows: &Vec<Vec<u32>>)
    ensures
        final(out)@ == old(out)@ + blocks::joined(row_bytes(rows@)),
{
    let ghost start = out@;
    let mut i: usize = 0;
    assert(row_bytes(rows@).take(0) =~= Seq::empty());
    assert(out@ =~= start + blocks::joined(row_bytes(rows@).take(0)));
    while i < rows.len()
        invariant
            i <= rows@.len(),
            out@ == start + blocks::joined(row_bytes(rows@).take(i as int)),
        decreases rows@.len() - i,
    {
        blocks::push_words(out, rows[i].as_slice());
        proof {
            let all = row_bytes(rows@);
            assert(all.take(i + 1) =~= all.take(i as int).push(all[i as int]));
            blocks::joined_push(all.take(i as int), all[i as int]);
            assert(out@ =~= start + blocks::joined(all.take(i + 1)));
        }
        i += 1;
    }
    assert(row_bytes(rows@).take(i as int) =~= row_bytes(rows@));
}

/// Appends the entries of a partition.
fn push_entries(out: &mut Vec<u8>, entries: &Vec<(u64, RabitqCode)>)
    ensures
        final(out)@ == old(out)@ + blocks::joined(
            entry_blocks(index_ivf_rq::entry_views(entries@)),
        ),
{
    let ghost start = out@;
    let ghost all = entry_blocks(index_ivf_rq::entry_views(entries@));
    let mut i: usize = 0;
    assert(all.take(0) =~= Seq::empty());
    assert(out@ =~= start + blocks::joined(all.take(0)));
    while i < entries.len()
        invariant
            i <= entries@.len(),
            all == entry_blocks(index_ivf_rq::entry_views(entries@)),
            out@ == start + blocks::joined(all.take(i as int)),
        decreases entries@.len() - i,
    {
        let ghost before = out@;
        little_endian::push_u64(out, entries[i].0);
        blocks::push_bytes(out, entries[i].1.bits.as_slice());
        little_endian::push_u32(out, entries[i].1.alpha);
        little_endian::push_u32(out, entries[i].1.beta);
        proof {
            assert(out@ =~= before + all[i as int]);
            assert(all.take(i + 1) =~= all.take(i as int).push(all[i as int]));
            blocks::joined_push(all.take(i as int), all[i as int]);
            assert(out@ =~= start + blocks::joined(all.take(i + 1)));
        }
        i += 1;
    }
    assert(all.take(i as int) =~= all);
}

/// Appends the entries of all partitions and notes where each stands.
fn push_partitions(out: &mut Vec<u8>, index: &IvfRabitqIndex) -> (metas: Vec<PartitionMeta>)
    ensures
        final(out)@ == old(out)@ + data_part(index@),
        metas@ == Seq::new(
            index@.partitions.len(),
            |p: int| meta_of(index@.partitions, old(out)@.len() as int, p),
        ),
{
    let ghost start = out@;
    let ghost views = index@.partitions;
    let ghost all = partition_blocks(views);
    let n: usize = index.num_partitions();
    let mut metas: Vec<PartitionMeta> = Vec::with_capacity(n);
    let mut p: usize = 0;
    assert(all.take(0) =~= Seq::empty());
    assert(out@ =~= start + blocks::joined(all.take(0)));
    while p < n
        invariant
            p <= n,
            n == views.len(),
            views == index@.partitions,
            all == partition_blocks(views),
            out@ == start + blocks::joined(all.take(p as int)),
            metas@ == Seq::new(p as nat, |q: int| meta_of(views, start.len() as int, q)),
        decreases n - p,
    {
        let offset: usize = out.len();
        let entries = index.partition_entries(p);
        push_entries(out, entries);
        let end: usize = out.len();
        let meta = PartitionMeta {
            offset: offset as u64,
            len: (end - offset) as u64,
            count: entries.len() as u64,
        };
        metas.push(meta);
        proof {
            assert(all.take(p + 1) =~= all.take(p as int).push(all[p as int]));
            blocks::joined_push(all.take(p as int), all[p as int]);
            assert(out@ =~= start + blocks::joined(all.take(p + 1)));
            assert(meta == meta_of(views, start.len() as int, p as int));
            assert(metas@ =~= Seq::new((p + 1) as nat, |q: int| meta_of(views, start.len() as int, q)));
        }
        p += 1;
    }
    assert(all.take(p as int) =~= all);
    metas
}

/// Appends what is noted of partitions.
fn push_metas(out: &mut Vec<u8>, metas: &Vec<PartitionMeta>)
    ensures
        final(out)@ == old(out)@ + blocks::joined(
            Seq::new(metas@.len(), |p: int| metas@[p].bytes()),
        ),
{
    let ghost start = out@;
    let ghost all = Seq::new(metas@.len(), |p: int| metas@[p].bytes());
    let mut p: usize = 0;
    assert(all.take(0) =~= Seq::empty());
    assert(out@ =~= start + blocks::joined(all.take(0)));
    while p < metas.len()
        invariant
            p <= metas@.len(),
            all == Seq::new(metas@.len(), |p: int| metas@[p].bytes()),
            out@ == start + blocks::joined(all.take(p as int)),
        decreases metas@.len() - p,
    {
        let bytes = metas[p].serialize();
        blocks::push_bytes(out, bytes.as_slice());
        proof {
            assert(all.take(p + 1) =~= all.take(p as int).push(all[p as int]));
            blocks::joined_push(all.take(p as int), all[p as int]);
            assert(out@ =~= start + blocks::joined(all.take(p + 1)));
        }
        p += 1;
    }
    assert(all.take(p as int) =~= all);
}

/// The bytes of the file of an index.
pub fn save_index(index: &IvfRabitqIndex) -> (r: Result<Vec<u8>, StorageError>)
    requires
        index@.dim <= u32::MAX,
        index@.partitions.len() <= u32::MAX,
    ensures
        payload::payloads_json(index@.payloads).len() > 0,
        r matches Ok(file) && file@ == index_file(
            index@,
            payload::payloads_json(index@.payloads),
        ),
{
    let ghost m = index@;
    let json = match payload::payloads_to_json(index.payloads()) {
        Ok(json) => json,
        Err(_) => {
            return Err(StorageError::BadPayload);
        },
    };
    let ghost at = layout_of(m, json@);
    let mut out: Vec<u8> = vec![0u8; 148];
    blocks::push_words(&mut out, index.rotation_matrix().as_slice());
    let rotation_end: usize = out.len();
    push_rows(&mut out, index.centroids());
    let centroids_end: usize = out.len();
    let metas = push_partitions(&mut out, index);
    let data_end: usize = out.len();
    push_metas(&mut out, &metas);
    assert(Seq::new(metas@.len(), |p: int| metas@[p].bytes()) =~= meta_blocks(
        m.partitions,
        at.centroids,
    ));
    let metas_end: usize = out.len();
    push_rows(&mut out, index.raw_vectors());
    let raw_end: usize = out.len();
    blocks::push_bytes(&mut out, json.as_slice());
    let payload_end: usize = out.len();
    let blank = Manifest { version: index.next_id(), checksum: 0 };
    let blank_bytes = blank.serialize();
    blocks::push_bytes(&mut out, blank_bytes.as_slice());
    let total: usize = out.len();
    let header = Header {
        magic: storage_format::MAGIC,
        version: storage_format::FORMAT_VERSION,
        dim: index.config().dim as u32,
        num_partitions: index.num_partitions() as u32,
        num_vectors: index.len() as u64,
        next_id: index.next_id(),
        rotation_offset: 148,
        rotation_len: (rotation_end - 148) as u64,
        centroids_offset: rotation_end as u64,
        centroids_len: (centroids_end - rotation_end) as u64,
        partition_meta_offset: data_end as u64,
        partition_meta_len: (metas_end - data_end) as u64,
        partition_data_offset: centroids_end as u64,
        partition_data_len: (data_end - centroids_end) as u64,
        raw_offset: metas_end as u64,
        raw_len: (raw_end - metas_end) as u64,
        payload_offset: raw_end as u64,
        payload_len: (payload_end - raw_end) as u64,
        manifest_offset: payload_end as u64,
        manifest_len: 16,
    };
    proof {
        assert(out@.subrange(148, payload_end as int) =~= contents(m, json@));
        assert(out@.subrange(148, total as int) =~= body(m, json@, 0));
        assert(header == header_for(m, json@));
    }
    let sum: u32 = checksum::crc32(slice_subrange(out.as_slice(), 148, total));
    let manifest = Manifest { version: index.next_id(), checksum: sum };
    let manifest_bytes = manifest.serialize();
    let mut file = header.serialize();
    blocks::push_bytes(&mut file, slice_subrange(out.as_slice(), 148, payload_end));
    blocks::push_bytes(&mut file, manifest_bytes.as_slice());
    assert(file@ =~= index_file(m, json@));
    Ok(file)
}

} // verus!
