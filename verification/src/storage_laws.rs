//! What holds of index files: what was saved is loaded, and damage is found.

use crate::blocks;
use crate::checksum;
use crate::index_ivf_rq;
use crate::index_ivf_rq::{IndexModel, IvfRabitqIndex};
use crate::little_endian;
use crate::payload;
use crate::rabitq;
use crate::storage::{PartsModel, StorageError};
use crate::storage;
use crate::storage_format::Manifest;
use crate::storage_format;
use crate::storage_save;
use vstd::prelude::*;

verus! {

/// A part of a file is found by its offset and length.
proof fn section_found(file: Seq<u8>, front: Seq<u8>, part: Seq<u8>, back: Seq<u8>)
    requires
        file == front + part + back,
    ensures
        storage::section(file, (front.len(), part.len())) == Some(part),
{
    if part.len() == 0 {
        assert(part =~= Seq::empty());
    } else {
        assert(file.subrange(front.len() as int, (front.len() + part.len()) as int) =~= part);
    }
}

/// Vectors of one dimension are read back row by row.
pub proof fn rows_round_trip(rows: Seq<Vec<u32>>, dim: int)
    requires
        0 <= dim,
        forall|i: int| 0 <= i < rows.len() ==> (#[trigger] rows[i])@.len() == dim,
    ensures
        ({
            let b = blocks::joined(storage_save::row_bytes(rows));
            &&& b.len() == rows.len() * (4 * dim)
            &&& b.len() % 4 == 0
            &&& rows.len() * dim <= b.len() / 4
            &&& storage::rows_of(blocks::bytes_to_words(b), dim, rows.len())
                == storage::row_views(rows)
        }),
{
    let all = storage_save::row_bytes(rows);
    let b = blocks::joined(all);
    let n = rows.len() as int;
    let words = blocks::bytes_to_words(b);
    assert forall|i: int| 0 <= i < all.len() implies (#[trigger] all[i]).len() == 4 * dim by {
        blocks::words_round_trip(rows[i]@);
    }
    blocks::joined_len(all, 4 * dim);
    assert(n * (4 * dim) == 4 * (n * dim)) by (nonlinear_arith);
    assert forall|i: int| 0 <= i < n implies storage::row_of(words, dim, i) == #[trigger] rows[i]@ by {
        blocks::joined_at(all, 4 * dim, i);
        blocks::words_round_trip(rows[i]@);
        let block = blocks::words_to_bytes(rows[i]@);
        assert(i * (4 * dim) == 4 * (i * dim)) by (nonlinear_arith);
        let at = i * dim;
        assert(0 <= at && at + dim <= n * dim) by (nonlinear_arith)
            requires
                0 <= i < n,
                0 <= dim,
                at == i * dim,
        ;
        assert forall|d: int| 0 <= d < dim implies words[at + d] == #[trigger] rows[i]@[d] by {
            assert(b.subrange(4 * (at + d), 4 * (at + d) + 4) =~= block.subrange(4 * d, 4 * d + 4));
            assert(blocks::bytes_to_words(block)[d] == rows[i]@[d]);
        }
        assert(storage::row_of(words, dim, i) =~= rows[i]@);
    }
    assert(storage::rows_of(words, dim, rows.len()) =~= storage::row_views(rows));
}

/// An entry is read back.
proof fn entry_round_trip(b: Seq<u8>, at: int, dim: nat, entry: (u64, rabitq::Code))
    requires
        0 <= at,
        entry.1.bits.len() == dim / 8,
        at + storage::entry_size(dim) <= b.len(),
        b.subrange(at, at + storage::entry_size(dim)) == storage_save::entry_bytes(entry),
    ensures
        storage_save::entry_bytes(entry).len() == storage::entry_size(dim),
        storage::entry_at(b, dim, at) == entry,
{
    let e = storage_save::entry_bytes(entry);
    let n = (dim / 8) as int;
    little_endian::le_bytes_len(entry.0 as nat, 8);
    little_endian::le_bytes_len(entry.1.alpha as nat, 4);
    little_endian::le_bytes_len(entry.1.beta as nat, 4);
    little_endian::le_limits();
    little_endian::le_value_of_bytes(entry.0 as nat, 8);
    little_endian::le_value_of_bytes(entry.1.alpha as nat, 4);
    little_endian::le_value_of_bytes(entry.1.beta as nat, 4);
    assert(b.subrange(at, at + 8) =~= e.subrange(0, 8));
    assert(e.subrange(0, 8) =~= little_endian::le_bytes(entry.0 as nat, 8));
    assert(b.subrange(at + 8, at + 8 + n) =~= e.subrange(8, 8 + n));
    assert(e.subrange(8, 8 + n) =~= entry.1.bits);
    assert(b.subrange(at + 8 + n, at + 12 + n) =~= e.subrange(8 + n, 12 + n));
    assert(e.subrange(8 + n, 12 + n) =~= little_endian::le_bytes(entry.1.alpha as nat, 4));
    assert(b.subrange(at + 12 + n, at + 16 + n) =~= e.subrange(12 + n, 16 + n));
    assert(e.subrange(12 + n, 16 + n) =~= little_endian::le_bytes(entry.1.beta as nat, 4));
    assert(at + 12 + n == at + 8 + n + 4);
    assert(storage::entry_at(b, dim, at).1 =~= entry.1);
}

/// The entries of a partition are read back.
proof fn entries_round_trip(entries: Seq<(u64, rabitq::Code)>, dim: nat)
    requires
        forall|i: int|
            0 <= i < entries.len() ==> (#[trigger] entries[i]).1.bits.len() == dim / 8,
    ensures
        ({
            let b = blocks::joined(storage_save::entry_blocks(entries));
            &&& b.len() == entries.len() * storage::entry_size(dim)
            &&& storage::entries_of(b, dim, entries.len()) == entries
        }),
{
    let all = storage_save::entry_blocks(entries);
    let b = blocks::joined(all);
    let size = storage::entry_size(dim) as int;
    assert forall|i: int| 0 <= i < all.len() implies (#[trigger] all[i]).len() == size by {
        assert(entries[i].1.bits.len() == dim / 8);
        little_endian::le_bytes_len(entries[i].0 as nat, 8);
        little_endian::le_bytes_len(entries[i].1.alpha as nat, 4);
        little_endian::le_bytes_len(entries[i].1.beta as nat, 4);
    }
    blocks::joined_len(all, size);
    assert forall|i: int| 0 <= i < entries.len() implies #[trigger] storage::entries_of(
        b,
        dim,
        entries.len(),
    )[i] == entries[i] by {
        blocks::joined_at(all, size, i);
        assert(entries[i].1.bits.len() == dim / 8);
        entry_round_trip(b, i * size, dim, entries[i]);
    }
    assert(storage::entries_of(b, dim, entries.len()) =~= entries);
}

/// Where a block stands among blocks of any size.
proof fn joined_prefix(all: Seq<Seq<u8>>, p: int)
    requires
        0 <= p < all.len(),
    ensures
        blocks::joined(all.take(p)).len() + all[p].len() <= blocks::joined(all).len(),
        blocks::joined(all).subrange(
            blocks::joined(all.take(p)).len() as int,
            (blocks::joined(all.take(p)).len() + all[p].len()) as int,
        ) == all[p],
    decreases all.len(),
{
    let front = all.drop_last();
    let start = blocks::joined(all.take(p)).len() as int;
    if p == all.len() - 1 {
        assert(all.take(p) =~= front);
        assert(blocks::joined(all).subrange(start, start + all[p].len()) =~= all[p]);
    } else {
        joined_prefix(front, p);
        assert(front.take(p) =~= all.take(p));
        assert(blocks::joined(all).subrange(start, start + all[p].len()) =~= blocks::joined(
            front,
        ).subrange(start, start + all[p].len()));
    }
}

/// What is noted of each partition is read back.
pub proof fn metas_round_trip(partitions: Seq<Seq<(u64, rabitq::Code)>>, start: int)
    ensures
        ({
            let b = blocks::joined(storage_save::meta_blocks(partitions, start));
            &&& b.len() == 24 * partitions.len()
            &&& forall|p: int|
                0 <= p < partitions.len() ==> #[trigger] storage_format::meta_at(b, 24 * p)
                    == storage_save::meta_of(partitions, start, p)@
        }),
{
    let all = storage_save::meta_blocks(partitions, start);
    let b = blocks::joined(all);
    assert forall|p: int| 0 <= p < all.len() implies (#[trigger] all[p]).len() == 24 by {
        storage_format::meta_round_trip(storage_save::meta_of(partitions, start, p));
    }
    blocks::joined_len(all, 24);
    assert forall|p: int| 0 <= p < partitions.len() implies #[trigger] storage_format::meta_at(
        b,
        24 * p,
    ) == storage_save::meta_of(partitions, start, p)@ by {
        blocks::joined_at(all, 24, p);
        let block = all[p];
        let at = 24 * p;
        storage_format::meta_round_trip(storage_save::meta_of(partitions, start, p));
        assert(b.subrange(at, at + 24) == block);
        assert(b.subrange(at, at + 8) =~= block.subrange(0, 8));
        assert(b.subrange(at + 8, at + 16) =~= block.subrange(8, 16));
        assert(b.subrange(at + 16, at + 24) =~= block.subrange(16, 24));
        assert(at + 8 + 8 == at + 16);
    }
}

/// An index whose file can be read back: its numbers fit into the header.
pub open spec fn storable(m: IndexModel, json: Seq<u8>) -> bool {
    &&& m.wf()
    &&& m.dim <= u32::MAX
    &&& m.partitions.len() <= u32::MAX
    &&& m.raw.len() <= usize::MAX
    &&& storage_save::index_file(m, json).len() <= u64::MAX
    &&& json.len() > 0
}

/// Where each of eight parts stands in the whole.
proof fn parts_found(
    head: Seq<u8>,
    r: Seq<u8>,
    c: Seq<u8>,
    d: Seq<u8>,
    t: Seq<u8>,
    w: Seq<u8>,
    j: Seq<u8>,
    m: Seq<u8>,
)
    ensures
        ({
            let file = head + r + c + d + t + w + j + m;
            let (a1, a2) = (head.len(), head.len() + r.len());
            let (a3, a4) = (a2 + c.len(), a2 + c.len() + d.len());
            let (a5, a6) = (a4 + t.len(), a4 + t.len() + w.len());
            &&& storage::section(file, (a1, r.len())) == Some(r)
            &&& storage::section(file, (a2, c.len())) == Some(c)
            &&& file.subrange(a3 as int, a4 as int) == d
            &&& storage::section(file, (a4, t.len())) == Some(t)
            &&& storage::section(file, (a5, w.len())) == Some(w)
            &&& storage::section(file, (a6, j.len())) == Some(j)
        }),
{
    let file = head + r + c + d + t + w + j + m;
    assert(file =~= head + r + (c + d + t + w + j + m));
    section_found(file, head, r, c + d + t + w + j + m);
    assert(file =~= (head + r) + c + (d + t + w + j + m));
    section_found(file, head + r, c, d + t + w + j + m);
    assert(file =~= (head + r + c + d) + t + (w + j + m));
    section_found(file, head + r + c + d, t, w + j + m);
    assert(file =~= (head + r + c + d + t) + w + (j + m));
    section_found(file, head + r + c + d + t, w, j + m);
    assert(file =~= (head + r + c + d + t + w) + j + m);
    section_found(file, head + r + c + d + t + w, j, m);
    let start = (head.len() + r.len() + c.len()) as int;
    assert(file.subrange(start, start + d.len()) =~= d);
}

/// The parts of the file and where they stand.
pub proof fn file_sections(m: IndexModel, json: Seq<u8>)
    requires
        storable(m, json),
    ensures
        ({
            let file = storage_save::index_file(m, json);
            let h = storage_format::header_of(file);
            let at = storage_save::layout_of(m, json);
            &&& file.len() == at.payload + 16
            &&& h == storage_save::header_for(m, json)@
            &&& h.dim == m.dim
            &&& h.num_partitions == m.partitions.len()
            &&& h.num_vectors == m.raw.len()
            &&& h.manifest.0 == at.payload
            &&& h.payload.1 == json.len()
            &&& h.partition_meta.1 == storage_save::meta_part(m, at.centroids).len()
            &&& h.rotation.1 == storage_save::rotation_part(m).len()
            &&& h.centroids.1 == storage_save::centroid_part(m).len()
            &&& h.raw.1 == storage_save::raw_part(m).len()
            &&& storage::section(file, h.rotation) == Some(storage_save::rotation_part(m))
            &&& storage::section(file, h.centroids) == Some(storage_save::centroid_part(m))
            &&& storage::section(file, h.partition_meta) == Some(
                storage_save::meta_part(m, at.centroids),
            )
            &&& storage::section(file, h.raw) == Some(storage_save::raw_part(m))
            &&& storage::section(file, h.payload) == Some(json)
            &&& file.subrange(at.centroids, at.data) == storage_save::data_part(m)
            &&& at.data - at.centroids == storage_save::data_part(m).len()
            &&& 148 <= at.centroids <= at.data <= file.len()
        }),
{
    let file = storage_save::index_file(m, json);
    let at = storage_save::layout_of(m, json);
    let hd = storage_save::header_for(m, json);
    let sum = checksum::crc_of(storage_save::body(m, json, 0));
    let manifest = (Manifest { version: m.next_id, checksum: sum }).bytes();
    storage_format::manifest_round_trip(Manifest { version: m.next_id, checksum: sum });
    storage_format::header_round_trip(hd, storage_save::body(m, json, sum));
    let head = hd.bytes();
    let (r, c, d, t, w) = (
        storage_save::rotation_part(m),
        storage_save::centroid_part(m),
        storage_save::data_part(m),
        storage_save::meta_part(m, at.centroids),
        storage_save::raw_part(m),
    );
    assert(file =~= head + r + c + d + t + w + json + manifest);
    parts_found(head, r, c, d, t, w, json, manifest);
}

/// A part of a part.
proof fn part_of_part(file: Seq<u8>, lo: int, hi: int, a: int, n: int)
    requires
        0 <= lo <= hi <= file.len(),
        0 <= a,
        0 <= n,
        a + n <= hi - lo,
    ensures
        file.subrange(lo + a, lo + a + n) == file.subrange(lo, hi).subrange(a, a + n),
{
    assert(file.subrange(lo + a, lo + a + n) =~= file.subrange(lo, hi).subrange(a, a + n));
}

/// The entries of a partition stand where its note says.
#[verifier::spinoff_prover]
#[verifier::rlimit(30)]
pub proof fn partition_found(m: IndexModel, json: Seq<u8>, p: int)
    requires
        storable(m, json),
        0 <= p < m.partitions.len(),
    ensures
        ({
            let file = storage_save::index_file(m, json);
            let h = storage_format::header_of(file);
            let meta = storage::partition_meta(file, h, p);
            &&& storage::partition_section(file, h, p) == Some(
                blocks::joined(storage_save::entry_blocks(m.partitions[p])),
            )
            &&& meta.count == m.partitions[p].len()
            &&& storage::entries_fit(file, h, p)
            &&& storage::entries_of(
                blocks::joined(storage_save::entry_blocks(m.partitions[p])),
                h.dim,
                meta.count,
            ) == m.partitions[p]
        }),
{
    let file = storage_save::index_file(m, json);
    let h = storage_format::header_of(file);
    let at = storage_save::layout_of(m, json);
    file_sections(m, json);
    metas_round_trip(m.partitions, at.centroids);
    let meta = storage_save::meta_of(m.partitions, at.centroids, p);
    let all = storage_save::partition_blocks(m.partitions);
    assert(storage::partition_meta(file, h, p) == meta@);
    joined_prefix(all, p);
    let part = all[p];
    let off = at.centroids + blocks::joined(all.take(p)).len();
    assert(off + part.len() <= at.data);
    assert forall|i: int| 0 <= i < m.partitions[p].len() implies (
    #[trigger] m.partitions[p][i]).1.bits.len() == h.dim / 8 by {
        assert(m.entry_wf(p, i));
    }
    entries_round_trip(m.partitions[p], h.dim);
    assert(m.partitions[p].len() <= m.partitions[p].len() * storage::entry_size(h.dim))
        by (nonlinear_arith)
        requires
            storage::entry_size(h.dim) >= 1,
    ;
    assert(meta.offset == off && meta.len == part.len() && meta.count == m.partitions[p].len());
    if part.len() == 0 {
        assert(part =~= Seq::empty());
    } else {
        part_of_part(file, at.centroids, at.data, off - at.centroids, part.len() as int);
    }
}

/// Manifests that differ in the checksum alone differ in four bytes, which are zero where the
/// checksum is.
proof fn blank_manifest(version: u64, sum: u32)
    ensures
        ({
            let full = (Manifest { version, checksum: sum }).bytes();
            let blank = (Manifest { version, checksum: 0 }).bytes();
            &&& full.len() == 16
            &&& blank.len() == 16
            &&& little_endian::le_value(full.subrange(8, 12)) == sum
            &&& forall|i: int|
                0 <= i < 16 ==> #[trigger] blank[i] == if 8 <= i < 12 {
                    0u8
                } else {
                    full[i]
                }
        }),
{
    let full = (Manifest { version, checksum: sum }).bytes();
    let blank = (Manifest { version, checksum: 0 }).bytes();
    storage_format::manifest_round_trip(Manifest { version, checksum: sum });
    storage_format::manifest_round_trip(Manifest { version, checksum: 0 });
    little_endian::le_bytes_len(version as nat, 8);
    little_endian::le_bytes_len(sum as nat, 4);
    little_endian::le_bytes_len(0, 4);
    assert(forall|i: int| 0 <= i < 4 ==> #[trigger] little_endian::le_bytes(0, 4)[i] == 0) by {
        reveal_with_fuel(little_endian::le_bytes, 5);
    }
    assert forall|i: int| 0 <= i < 16 implies #[trigger] blank[i] == if 8 <= i < 12 {
        0u8
    } else {
        full[i]
    } by {
        if 8 <= i < 12 {
            assert(blank[i] == little_endian::le_bytes(0, 4)[i - 8]);
        }
    }
}

/// The contents that a checksum is taken of, where a manifest stands at the end.
proof fn checked_of_parts(
    head: Seq<u8>,
    c: Seq<u8>,
    full: Seq<u8>,
    blank: Seq<u8>,
    at: int,
)
    requires
        head.len() == 148,
        at == 148 + c.len(),
        full.len() == 16,
        blank.len() == 16,
        forall|i: int|
            0 <= i < 16 ==> #[trigger] blank[i] == if 8 <= i < 12 {
                0u8
            } else {
                full[i]
            },
    ensures
        storage::checked_contents(head + (c + full), at) == c + blank,
        (head + (c + full)).subrange(at + 8, at + 12) == full.subrange(8, 12),
{
    let file = head + (c + full);
    let checked = storage::checked_contents(file, at);
    assert forall|i: int| 0 <= i < checked.len() implies checked[i] == (c + blank)[i] by {
        if i >= c.len() {
            assert((c + blank)[i] == blank[i - c.len()]);
            assert(file[i + 148] == full[i - c.len()]);
        } else {
            assert(file[i + 148] == c[i]);
        }
    }
    assert(checked =~= c + blank);
    assert(file.subrange(at + 8, at + 12) =~= full.subrange(8, 12));
}

/// The checksum of a saved file holds.
pub proof fn saved_checksum_holds(m: IndexModel, json: Seq<u8>)
    requires
        storable(m, json),
    ensures
        storage::checksum_fault(
            storage_save::index_file(m, json),
            storage::MANIFEST_END as int,
        ) is None,
{
    let at = storage_save::layout_of(m, json);
    file_sections(m, json);
    let sum = checksum::crc_of(storage_save::body(m, json, 0));
    let full = (Manifest { version: m.next_id, checksum: sum }).bytes();
    let blank = (Manifest { version: m.next_id, checksum: 0 }).bytes();
    blank_manifest(m.next_id, sum);
    storage_format::header_round_trip(
        storage_save::header_for(m, json),
        storage_save::body(m, json, sum),
    );
    let c = storage_save::contents(m, json);
    assert(at.payload == 148 + c.len());
    checked_of_parts(storage_save::header_for(m, json).bytes(), c, full, blank, at.payload);
}

/// What was saved is loaded: the file of an index loads, and its parts are those of the index,
/// the payloads as their JSON text reads. Only payloads whose text cannot be read keep the file
/// from being loaded.
pub proof fn saved_index_loads(m: IndexModel, json: Seq<u8>)
    requires
        storable(m, json),
    ensures
        ({
            let file = storage_save::index_file(m, json);
            &&& payload::payloads_of_json(json) is Some ==> storage::load_fault(file) is None
            &&& payload::payloads_of_json(json) is None ==> storage::load_fault(file) == Some(
                StorageError::BadPayload,
            )
            &&& storage::parts_of(file, storage_format::header_of(file)) == (PartsModel {
                payloads: payload::payloads_of_json(json)->0,
                ..storage::parts_in(m)
            })
        }),
{
    let file = storage_save::index_file(m, json);
    let h = storage_format::header_of(file);
    let at = storage_save::layout_of(m, json);
    file_sections(m, json);
    saved_checksum_holds(m, json);
    metas_round_trip(m.partitions, at.centroids);
    blocks::words_round_trip(m.rotation@);
    rows_round_trip(m.centroids, m.dim);
    rows_round_trip(m.raw, m.dim);
    let parts = storage::parts_of(file, h);
    let wanted = PartsModel {
        payloads: payload::payloads_of_json(json)->0,
        ..storage::parts_in(m)
    };
    assert forall|p: int| 0 <= p < h.num_partitions implies {
        &&& #[trigger] storage::partition_section(file, h, p) is Some
        &&& storage::entries_fit(file, h, p)
        &&& parts.partitions[p] == m.partitions[p]
    } by {
        partition_found(m, json, p);
    }
    assert forall|p: int| 0 <= p < h.num_partitions implies #[trigger] storage::entries_fit(
        file,
        h,
        p,
    ) by {
        partition_found(m, json, p);
    }
    assert(parts.partitions =~= m.partitions) by {
        assert forall|p: int| 0 <= p < m.partitions.len() implies parts.partitions[p]
            == m.partitions[p] by {
            partition_found(m, json, p);
        }
    }
    assert(parts =~= wanted);
    assert(storage::present(file, h));
    assert(storage::readable(file, h));
    assert(storage::consistent(parts)) by {
        assert forall|p: int| 0 <= p < parts.partitions.len() implies #[trigger] storage::ids_below(
            parts.partitions[p],
            parts.raw.len(),
        ) by {
            assert forall|i: int| 0 <= i < parts.partitions[p].len() implies (
            #[trigger] parts.partitions[p][i]).0 < parts.raw.len() by {
                assert(m.partitions[p][i] == parts.partitions[p][i]);
                assert(m.entry_wf(p, i));
            }
        }
    }
    assert(h.magic == storage_format::MAGIC@);
}

/// An index whose payloads hold scalars was saved as `b`.
pub open spec fn saved_as(m: IndexModel, b: Seq<u8>) -> bool {
    let json = payload::payloads_json(m.payloads);
    &&& storable(m, json)
    &&& payload::scalars(m.payloads)
    &&& b == storage_save::index_file(m, json)
}

/// Where an index with such payloads was saved as `b`, loading gave it back.
pub open spec fn restored(b: Seq<u8>, r: Result<IvfRabitqIndex, StorageError>) -> bool {
    forall|m: IndexModel| #[trigger]
        saved_as(m, b) ==> r is Ok && has_parts_of(storage::parts_in(r->Ok_0@), m)
}

/// Parts are those of an index. The fields of the payloads are as they come back from JSON text: the
/// same where all are kept by it.
pub open spec fn has_parts_of(parts: PartsModel, m: IndexModel) -> bool {
    &&& parts == PartsModel { payloads: parts.payloads, ..storage::parts_in(m) }
    &&& payload::read_back(parts.payloads, m.payloads)
    &&& payload::plain(m.payloads) ==> payload::same_fields(parts.payloads, m.payloads)
}

/// A file that an index was saved as loads, and holds the parts of the index.
pub proof fn saved_is_restored(b: Seq<u8>)
    requires
        storage::sound(b) ==> storage::payloads_kept(b),
    ensures
        forall|m: IndexModel| #[trigger]
            saved_as(m, b) ==> {
                &&& storage::load_fault(b) is None
                &&& has_parts_of(storage::parts_of(b, storage_format::header_of(b)), m)
            },
{
    assert forall|m: IndexModel| #[trigger] saved_as(m, b) implies {
        &&& storage::load_fault(b) is None
        &&& has_parts_of(storage::parts_of(b, storage_format::header_of(b)), m)
    } by {
        let json = payload::payloads_json(m.payloads);
        saved_index_loads(m, json);
        saved_checksum_holds(m, json);
        file_sections(m, json);
        assert(storage::sound(b));
        let parts = storage::parts_of(b, storage_format::header_of(b));
        assert(payload::read_back(parts.payloads, m.payloads));
        if payload::plain(m.payloads) {
            payload::plain_payloads_come_back(parts.payloads, m.payloads);
        }
    }
}

/// An index that was saved with its ids in sequence has them in sequence when it is loaded, so that
/// vectors can be added to it.
pub proof fn loaded_is_numbered<
    R: Fn(&Vec<u32>, &Vec<u32>) -> Vec<u32>,
    N: Fn(&Vec<u32>) -> u32,
    Q: Fn(u32, u32, u32) -> u8,
>(rotate: R, norm: N, quantize: Q, b: Seq<u8>, m: IndexModel, back: IndexModel)
    requires
        m.wf(),
        m.numbered(),
        storage::loaded(rotate, norm, quantize, b, back),
        has_parts_of(storage::parts_in(back), m),
    ensures
        back.numbered(),
{
    assert(storage::row_views(back.raw).len() == storage::row_views(m.raw).len());
    index_ivf_rq::remade_is_numbered(m, back);
}

/// Damage is found: where one byte behind the header of a file with a sound checksum is changed, the
/// file does not load.
pub proof fn damage_is_found(b: Seq<u8>, i: int, byte: u8)
    requires
        storage::checksum_fault(b, storage::CHECKSUM_END as int) is None,
        148 <= i < b.len(),
        byte != b[i],
    ensures
        storage::load_fault(b.update(i, byte)) is Some,
        storage::mapped_fault(b.update(i, byte)) is Some,
{
    let c = b.update(i, byte);
    let h = storage_format::header_of(b);
    let at = h.manifest.0 as int;
    same_header(b, c);
    let before = storage::checked_contents(b, at);
    let after = storage::checked_contents(c, at);
    let (x, y) = (b.subrange(at + 8, at + 12), c.subrange(at + 8, at + 12));
    if at + 8 <= i < at + 12 {
        assert(before =~= after);
        little_endian::le_bytes_of_value(x);
        little_endian::le_bytes_of_value(y);
        assert(x[i - at - 8] != y[i - at - 8]);
    } else {
        assert(x =~= y);
        checksum::crc_detects_changed_byte(before, i - 148, byte);
        assert(after =~= before.update(i - 148, byte));
    }
    assert(storage::checksum_fault(c, storage::CHECKSUM_END as int) is Some);
    assert(storage::checksum_fault(c, storage::MANIFEST_END as int) is Some);
}

/// Files with the same first bytes have the same header.
pub proof fn same_header(b: Seq<u8>, c: Seq<u8>)
    requires
        b.len() >= 148,
        c.len() >= 148,
        forall|i: int| 0 <= i < 148 ==> b[i] == c[i],
    ensures
        storage_format::header_of(b) == storage_format::header_of(c),
{
    assert(b.subrange(0, 8) =~= c.subrange(0, 8));
    assert forall|i: int| 0 <= i <= 144 implies #[trigger] storage_format::word_at(b, i)
        == storage_format::word_at(c, i) by {
        assert(b.subrange(i, i + 4) =~= c.subrange(i, i + 4));
    }
    assert forall|i: int| 0 <= i <= 140 implies #[trigger] storage_format::long_at(b, i)
        == storage_format::long_at(c, i) by {
        assert(b.subrange(i, i + 8) =~= c.subrange(i, i + 8));
    }
    assert(storage_format::header_of(b) =~= storage_format::header_of(c));
}

} // verus!
