//! What stands where in an index file, and what its checksum is.

use crate::blocks;
use crate::checksum;
use crate::index_ivf_rq::IndexModel;
use crate::little_endian;
use crate::payload;
use crate::protocol_laws;
use crate::storage;
use crate::storage_format;
use crate::storage_laws;
use crate::storage_save;
use vstd::prelude::*;

verus! {

/// A register of the checksum moves one bit on.
pub open spec fn is_shifted(before: u32, after: u32) -> bool {
    after == if before % 2 == 1 {
        (before / 2) ^ 0xEDB8_8320u32
    } else {
        before / 2
    }
}

proof fn bits_are_shifted(c: u32)
    ensures
        is_shifted(c, checksum::crc_bit(c)),
{
    assert(c & 1 == c % 2) by (bit_vector);
    assert(c >> 1 == c / 2) by (bit_vector);
}

/// No bytes have the checksum 0, and one more byte takes the register eight bits on from where the
/// byte was put into its lowest bits. The checksum is the register with all bits turned.
pub proof fn checksums_step(data: Seq<u8>, byte: u8)
    ensures
        checksum::crc_of(Seq::empty()) == 0,
        exists|steps: Seq<u32>|
            {
                &&& #[trigger] steps.len() == 9
                &&& steps[0] == (checksum::crc_of(data) ^ 0xFFFF_FFFF) ^ byte as u32
                &&& is_shifted(steps[0], steps[1])
                &&& is_shifted(steps[1], steps[2])
                &&& is_shifted(steps[2], steps[3])
                &&& is_shifted(steps[3], steps[4])
                &&& is_shifted(steps[4], steps[5])
                &&& is_shifted(steps[5], steps[6])
                &&& is_shifted(steps[6], steps[7])
                &&& is_shifted(steps[7], steps[8])
                &&& checksum::crc_of(data.push(byte)) == steps[8] ^ 0xFFFF_FFFF
            },
{
    assert(0xFFFF_FFFFu32 ^ 0xFFFF_FFFFu32 == 0) by (bit_vector);
    let r = checksum::crc_bytes(0xFFFF_FFFF, data);
    assert((r ^ 0xFFFF_FFFFu32) ^ 0xFFFF_FFFFu32 == r) by (bit_vector);
    assert(data.push(byte).drop_last() =~= data);
    let start = r ^ byte as u32;
    let steps = Seq::new(9, |i: int| checksum::crc_bits(start, i as nat));
    reveal_with_fuel(checksum::crc_bits, 9);
    assert forall|i: int| 0 <= i < 8 implies is_shifted(
        #[trigger] checksum::crc_bits(start, i as nat),
        checksum::crc_bits(start, (i + 1) as nat),
    ) by {
        bits_are_shifted(checksum::crc_bits(start, i as nat));
    }
    assert(is_shifted(checksum::crc_bits(start, 0), checksum::crc_bits(start, 1)));
    assert(is_shifted(checksum::crc_bits(start, 1), checksum::crc_bits(start, 2)));
    assert(is_shifted(checksum::crc_bits(start, 2), checksum::crc_bits(start, 3)));
    assert(is_shifted(checksum::crc_bits(start, 3), checksum::crc_bits(start, 4)));
    assert(is_shifted(checksum::crc_bits(start, 4), checksum::crc_bits(start, 5)));
    assert(is_shifted(checksum::crc_bits(start, 5), checksum::crc_bits(start, 6)));
    assert(is_shifted(checksum::crc_bits(start, 6), checksum::crc_bits(start, 7)));
    assert(is_shifted(checksum::crc_bits(start, 7), checksum::crc_bits(start, 8)));
    assert(steps.len() == 9);
}

/// A header is read from the first 148 bytes: eight bytes of magic, three numbers of four bytes, and
/// sixteen numbers of eight bytes.
pub proof fn headers_are_read(b: Seq<u8>)
    requires
        b.len() >= 148,
    ensures
        ({
            let h = storage_format::header_of(b);
            &&& h.magic == b.subrange(0, 8)
            &&& h.version == protocol_laws::four(b, 8)
            &&& h.dim == protocol_laws::four(b, 12)
            &&& h.num_partitions == protocol_laws::four(b, 16)
            &&& h.num_vectors == protocol_laws::eight(b, 20)
            &&& h.next_id == protocol_laws::eight(b, 28)
            &&& h.rotation.0 == protocol_laws::eight(b, 36)
            &&& h.rotation.1 == protocol_laws::eight(b, 44)
            &&& h.centroids.0 == protocol_laws::eight(b, 52)
            &&& h.centroids.1 == protocol_laws::eight(b, 60)
            &&& h.partition_meta.0 == protocol_laws::eight(b, 68)
            &&& h.partition_meta.1 == protocol_laws::eight(b, 76)
            &&& h.partition_data.0 == protocol_laws::eight(b, 84)
            &&& h.partition_data.1 == protocol_laws::eight(b, 92)
            &&& h.raw.0 == protocol_laws::eight(b, 100)
            &&& h.raw.1 == protocol_laws::eight(b, 108)
            &&& h.payload.0 == protocol_laws::eight(b, 116)
            &&& h.payload.1 == protocol_laws::eight(b, 124)
            &&& h.manifest.0 == protocol_laws::eight(b, 132)
            &&& h.manifest.1 == protocol_laws::eight(b, 140)
        }),
{
    protocol_laws::words_are_little_endian(b, 8);
    protocol_laws::words_are_little_endian(b, 12);
    protocol_laws::words_are_little_endian(b, 16);
    protocol_laws::longs_are_little_endian(b, 20);
    protocol_laws::longs_are_little_endian(b, 28);
    protocol_laws::longs_are_little_endian(b, 36);
    protocol_laws::longs_are_little_endian(b, 44);
    protocol_laws::longs_are_little_endian(b, 52);
    protocol_laws::longs_are_little_endian(b, 60);
    protocol_laws::longs_are_little_endian(b, 68);
    protocol_laws::longs_are_little_endian(b, 76);
    protocol_laws::longs_are_little_endian(b, 84);
    protocol_laws::longs_are_little_endian(b, 92);
    protocol_laws::longs_are_little_endian(b, 100);
    protocol_laws::longs_are_little_endian(b, 108);
    protocol_laws::longs_are_little_endian(b, 116);
    protocol_laws::longs_are_little_endian(b, 124);
    protocol_laws::longs_are_little_endian(b, 132);
    protocol_laws::longs_are_little_endian(b, 140);
}

/// A header is written with its numbers where they are read.
pub proof fn headers_are_written(h: storage_format::Header, rest: Seq<u8>)
    ensures
        ({
            let b = h.bytes() + rest;
            &&& b.len() == 148 + rest.len()
            &&& b.subrange(0, 8) == h.magic@
            &&& protocol_laws::four(b, 8) == h.version
            &&& protocol_laws::four(b, 12) == h.dim
            &&& protocol_laws::four(b, 16) == h.num_partitions
            &&& protocol_laws::eight(b, 20) == h.num_vectors
            &&& protocol_laws::eight(b, 28) == h.next_id
            &&& protocol_laws::eight(b, 36) == h.rotation_offset
            &&& protocol_laws::eight(b, 44) == h.rotation_len
            &&& protocol_laws::eight(b, 52) == h.centroids_offset
            &&& protocol_laws::eight(b, 60) == h.centroids_len
            &&& protocol_laws::eight(b, 68) == h.partition_meta_offset
            &&& protocol_laws::eight(b, 76) == h.partition_meta_len
            &&& protocol_laws::eight(b, 84) == h.partition_data_offset
            &&& protocol_laws::eight(b, 92) == h.partition_data_len
            &&& protocol_laws::eight(b, 100) == h.raw_offset
            &&& protocol_laws::eight(b, 108) == h.raw_len
            &&& protocol_laws::eight(b, 116) == h.payload_offset
            &&& protocol_laws::eight(b, 124) == h.payload_len
            &&& protocol_laws::eight(b, 132) == h.manifest_offset
            &&& protocol_laws::eight(b, 140) == h.manifest_len
        }),
{
    storage_format::header_round_trip(h, rest);
    headers_are_read(h.bytes() + rest);
}

/// A manifest is written as its version in eight bytes, its checksum in four, and four zeros.
pub proof fn manifests_are_written(m: storage_format::Manifest)
    ensures
        m.bytes().len() == 16,
        protocol_laws::eight(m.bytes(), 0) == m.version,
        protocol_laws::four(m.bytes(), 8) == m.checksum,
        protocol_laws::four(m.bytes(), 12) == 0,
{
    storage_format::manifest_round_trip(m);
    protocol_laws::longs_are_little_endian(m.bytes(), 0);
    protocol_laws::words_are_little_endian(m.bytes(), 8);
    little_endian::le_bytes_len(m.version as nat, 8);
    little_endian::le_bytes_len(m.checksum as nat, 4);
    protocol_laws::written_words(0);
    let tail = little_endian::le_bytes(0, 4);
    assert(m.bytes()[12] == tail[0]);
    assert(m.bytes()[13] == tail[1]);
    assert(m.bytes()[14] == tail[2]);
    assert(m.bytes()[15] == tail[3]);
}

/// The section that the header names at `at` lies in the file. An empty section lies anywhere.
pub open spec fn lies_in(b: Seq<u8>, at: int) -> bool {
    protocol_laws::eight(b, at + 8) == 0 || protocol_laws::eight(b, at) + protocol_laws::eight(
        b,
        at + 8,
    ) <= b.len()
}

/// One of the three numbers that the table of partitions holds of a partition.
pub open spec fn table_number(b: Seq<u8>, p: int, k: int) -> int {
    protocol_laws::eight(b, protocol_laws::eight(b, 68) + 24 * p + 8 * k)
}

/// The entries of a partition lie in the file, as many as are counted.
pub open spec fn partition_lies_in(b: Seq<u8>, p: int) -> bool {
    &&& table_number(b, p, 1) == 0 || table_number(b, p, 0) + table_number(b, p, 1) <= b.len()
    &&& table_number(b, p, 2) * (16 + protocol_laws::four(b, 12) / 8) <= table_number(b, p, 1)
}

/// Where an entry of a partition starts.
pub open spec fn entry_place(b: Seq<u8>, p: int, i: int) -> int {
    table_number(b, p, 0) + i * (16 + protocol_laws::four(b, 12) / 8)
}

proof fn sections_hold_numbers(b: Seq<u8>, at: (nat, nat), i: int)
    requires
        storage::section(b, at) is Some,
        0 <= i,
    ensures
        i + 8 <= at.1 ==> storage_format::long_at(storage::section(b, at)->0, i)
            == protocol_laws::eight(b, at.0 + i),
        i + 4 <= at.1 ==> storage_format::word_at(storage::section(b, at)->0, i)
            == protocol_laws::four(b, at.0 + i),
        i + 4 <= at.1 ==> 0 <= protocol_laws::four(b, at.0 + i) < 0x1_0000_0000,
{
    let s = storage::section(b, at)->0;
    if i + 8 <= at.1 {
        assert(s.subrange(i, i + 8) =~= b.subrange(at.0 + i, at.0 + i + 8));
        protocol_laws::longs_are_little_endian(b, at.0 + i);
    }
    if i + 4 <= at.1 {
        assert(s.subrange(i, i + 4) =~= b.subrange(at.0 + i, at.0 + i + 4));
        protocol_laws::words_are_little_endian(b, at.0 + i);
    }
}

proof fn table_holds(b: Seq<u8>, p: int)
    requires
        b.len() >= 148,
        storage::section(b, storage_format::header_of(b).partition_meta) is Some,
        storage::metas_complete(storage_format::header_of(b)),
        0 <= p < storage_format::header_of(b).num_partitions,
    ensures
        ({
            let meta = storage::partition_meta(b, storage_format::header_of(b), p);
            &&& meta.offset == table_number(b, p, 0)
            &&& meta.len == table_number(b, p, 1)
            &&& meta.count == table_number(b, p, 2)
        }),
{
    headers_are_read(b);
    let h = storage_format::header_of(b);
    sections_hold_numbers(b, h.partition_meta, 24 * p);
    sections_hold_numbers(b, h.partition_meta, 24 * p + 8);
    sections_hold_numbers(b, h.partition_meta, 24 * p + 16);
}

proof fn partition_is_present(b: Seq<u8>, p: int)
    requires
        b.len() >= 148,
        storage::section(b, storage_format::header_of(b).partition_meta) is Some,
        storage::metas_complete(storage_format::header_of(b)),
        0 <= p < storage_format::header_of(b).num_partitions,
    ensures
        partition_lies_in(b, p) <==> {
            let h = storage_format::header_of(b);
            storage::partition_section(b, h, p) is Some && storage::entries_fit(b, h, p)
        },
{
    headers_are_read(b);
    table_holds(b, p);
    let h = storage_format::header_of(b);
    let meta = storage::partition_meta(b, h, p);
    assert(meta.count * storage::entry_size(h.dim) == table_number(b, p, 2) * (16
        + protocol_laws::four(b, 12) / 8));
}

/// Every part of an index lies in the file and is as long as the header says.
pub open spec fn is_whole(b: Seq<u8>) -> bool {
    let dim = protocol_laws::four(b, 12);
    let partitions = protocol_laws::four(b, 16);
    let vectors = protocol_laws::eight(b, 20);
    &&& lies_in(b, 36)
    &&& protocol_laws::eight(b, 44) % 4 == 0
    &&& lies_in(b, 52)
    &&& protocol_laws::eight(b, 60) % 4 == 0
    &&& partitions * dim <= protocol_laws::eight(b, 60) / 4
    &&& lies_in(b, 68)
    &&& 24 * partitions <= protocol_laws::eight(b, 76)
    &&& forall|p: int| 0 <= p < partitions ==> #[trigger] partition_lies_in(b, p)
    &&& lies_in(b, 100)
    &&& protocol_laws::eight(b, 108) % 4 == 0
    &&& vectors * dim <= protocol_laws::eight(b, 108) / 4
    &&& vectors <= usize::MAX
    &&& lies_in(b, 116)
}

proof fn whole_is_readable(b: Seq<u8>)
    requires
        b.len() >= 148,
    ensures
        is_whole(b) <==> {
            let h = storage_format::header_of(b);
            storage::present(b, h) && storage::readable(b, h)
        },
{
    headers_are_read(b);
    let h = storage_format::header_of(b);
    if is_whole(b) {
        assert forall|p: int| 0 <= p < h.num_partitions implies #[trigger] storage::partition_section(
            b,
            h,
            p,
        ) is Some by {
            assert(partition_lies_in(b, p));
            partition_is_present(b, p);
        }
        assert forall|p: int| 0 <= p < h.num_partitions implies #[trigger] storage::entries_fit(
            b,
            h,
            p,
        ) by {
            assert(partition_lies_in(b, p));
            partition_is_present(b, p);
        }
        assert(storage::present(b, h));
        assert(storage::readable(b, h));
    }
    if storage::present(b, h) && storage::readable(b, h) {
        assert forall|p: int| 0 <= p < h.num_partitions implies #[trigger] partition_lies_in(
            b,
            p,
        ) by {
            assert(storage::partition_section(b, h, p) is Some);
            assert(storage::entries_fit(b, h, p));
            partition_is_present(b, p);
        }
    }
}

/// A number of a row that is stored in a section, row by row in four bytes each.
pub open spec fn row_number(b: Seq<u8>, at: int, i: int) -> int {
    protocol_laws::four(b, protocol_laws::eight(b, at) + 4 * i)
}

/// An entry of a partition stands in the file: its id in eight bytes, the bits of its code, and its
/// two corrections in four bytes each.
pub open spec fn entry_stands(b: Seq<u8>, at: int, id: u64, code: crate::rabitq::Code) -> bool {
    let bits = protocol_laws::four(b, 12) / 8;
    &&& id == protocol_laws::eight(b, at)
    &&& code.bits == b.subrange(at + 8, at + 8 + bits)
    &&& code.alpha == protocol_laws::four(b, at + 8 + bits)
    &&& code.beta == protocol_laws::four(b, at + 12 + bits)
}

/// The parts of an index are read from where they stand.
pub open spec fn are_parts_of(b: Seq<u8>, parts: storage::PartsModel) -> bool {
    let dim = protocol_laws::four(b, 12);
    &&& parts.dim == dim
    &&& parts.next_id == protocol_laws::eight(b, 28)
    &&& parts.rotation.len() == protocol_laws::eight(b, 44) / 4
    &&& forall|i: int|
        0 <= i < parts.rotation.len() ==> #[trigger] parts.rotation[i] == row_number(b, 36, i)
    &&& parts.centroids.len() == protocol_laws::four(b, 16)
    &&& forall|p: int, d: int|
        0 <= p < parts.centroids.len() && 0 <= d < dim ==> #[trigger] parts.centroids[p][d]
            == row_number(b, 52, p * dim + d)
    &&& forall|p: int|
        0 <= p < parts.centroids.len() ==> (#[trigger] parts.centroids[p]).len() == dim
    &&& parts.partitions.len() == protocol_laws::four(b, 16)
    &&& forall|p: int|
        0 <= p < parts.partitions.len() ==> (#[trigger] parts.partitions[p]).len()
            == table_number(b, p, 2)
    &&& forall|p: int, i: int|
        0 <= p < parts.partitions.len() && 0 <= i < parts.partitions[p].len() ==> {
            let entry = #[trigger] parts.partitions[p][i];
            entry_stands(b, entry_place(b, p, i), entry.0, entry.1)
        }
    &&& parts.raw.len() == protocol_laws::eight(b, 20)
    &&& forall|i: int, d: int|
        0 <= i < parts.raw.len() && 0 <= d < dim ==> #[trigger] parts.raw[i][d] == row_number(
            b,
            100,
            i * dim + d,
        )
    &&& forall|i: int| 0 <= i < parts.raw.len() ==> (#[trigger] parts.raw[i]).len() == dim
    &&& protocol_laws::eight(b, 124) == 0 ==> parts.payloads.len() == 0
    &&& protocol_laws::eight(b, 124) > 0 ==> Some(parts.payloads) == payload::payloads_of_json(
        b.subrange(
            protocol_laws::eight(b, 116),
            protocol_laws::eight(b, 116) + protocol_laws::eight(b, 124),
        ),
    )
}

proof fn words_are_numbers(b: Seq<u8>, at: (nat, nat), i: int)
    requires
        storage::section(b, at) is Some,
        at.1 % 4 == 0,
        0 <= i < at.1 / 4,
    ensures
        ({
            let words = blocks::bytes_to_words(storage::section(b, at)->0);
            &&& words.len() == at.1 / 4
            &&& words[i] == protocol_laws::four(b, at.0 + 4 * i)
        }),
{
    sections_hold_numbers(b, at, 4 * i);
}

proof fn row_is_numbers(b: Seq<u8>, at: (nat, nat), dim: int, n: nat, i: int, d: int)
    requires
        storage::section(b, at) is Some,
        at.1 % 4 == 0,
        n * dim <= at.1 / 4,
        0 <= i < n,
        0 <= d < dim,
    ensures
        ({
            let rows = storage::rows_of(
                blocks::bytes_to_words(storage::section(b, at)->0),
                dim,
                n,
            );
            rows[i][d] == protocol_laws::four(b, at.0 + 4 * (i * dim + d))
        }),
{
    assert(0 <= i * dim && i * dim + d < n * dim && i * dim + dim <= n * dim) by (nonlinear_arith)
        requires
            0 <= i < n,
            0 <= d < dim,
    ;
    words_are_numbers(b, at, i * dim + d);
}

proof fn row_is_long_enough(words: Seq<u32>, dim: int, n: nat, i: int)
    requires
        n * dim <= words.len(),
        0 <= i < n,
        0 <= dim,
    ensures
        storage::rows_of(words, dim, n)[i].len() == dim,
{
    assert(0 <= i * dim && i * dim + dim <= n * dim) by (nonlinear_arith)
        requires
            0 <= i < n,
            0 <= dim,
    ;
}

proof fn entry_is_read(b: Seq<u8>, p: int, i: int)
    requires
        b.len() >= 148,
        is_whole(b),
        0 <= p < protocol_laws::four(b, 16),
        0 <= i < table_number(b, p, 2),
    ensures
        ({
            let h = storage_format::header_of(b);
            let s = storage::partition_section(b, h, p)->0;
            let entry = storage::entry_at(s, h.dim, i * storage::entry_size(h.dim));
            entry_stands(b, entry_place(b, p, i), entry.0, entry.1)
        }),
{
    headers_are_read(b);
    whole_is_readable(b);
    table_holds(b, p);
    assert(partition_lies_in(b, p));
    let h = storage_format::header_of(b);
    let meta = storage::partition_meta(b, h, p);
    let at = (meta.offset, meta.len);
    let size = 16 + protocol_laws::four(b, 12) / 8;
    let count = table_number(b, p, 2);
    assert(0 <= i * size && i * size + size <= count * size) by (nonlinear_arith)
        requires
            0 <= i < count,
            0 <= size,
    ;
    let bits = protocol_laws::four(b, 12) / 8;
    assert(storage::partition_section(b, h, p) is Some);
    sections_hold_numbers(b, at, i * size);
    sections_hold_numbers(b, at, i * size + 8 + bits);
    sections_hold_numbers(b, at, i * size + 12 + bits);
    let s = storage::section(b, at)->0;
    assert(s.subrange(i * size + 8, i * size + 8 + bits) =~= b.subrange(
        at.0 + i * size + 8,
        at.0 + i * size + 8 + bits,
    ));
    assert(storage_format::long_at(s, i * size) <= u64::MAX);
}

/// Loading a file reads the parts of the index from where they stand.
pub proof fn parts_are_read(b: Seq<u8>)
    requires
        storage::load_fault(b) is None,
    ensures
        are_parts_of(b, storage::parts_of(b, storage_format::header_of(b))),
{
    headers_are_read(b);
    whole_is_readable(b);
    let h = storage_format::header_of(b);
    let parts = storage::parts_of(b, h);
    let dim = protocol_laws::four(b, 12);
    assert forall|i: int| 0 <= i < parts.rotation.len() implies #[trigger] parts.rotation[i]
        == row_number(b, 36, i) by {
        words_are_numbers(b, h.rotation, i);
    }
    assert forall|p: int| 0 <= p < parts.centroids.len() implies (#[trigger] parts.centroids[p]).len()
        == dim by {
        let words = blocks::bytes_to_words(storage::section(b, h.centroids)->0);
        row_is_long_enough(words, dim, h.num_partitions, p);
    }
    assert forall|i: int| 0 <= i < parts.raw.len() implies (#[trigger] parts.raw[i]).len() == dim by {
        let words = blocks::bytes_to_words(storage::section(b, h.raw)->0);
        row_is_long_enough(words, dim, h.num_vectors, i);
    }
    assert forall|p: int, d: int|
        0 <= p < parts.centroids.len() && 0 <= d < dim implies #[trigger] parts.centroids[p][d]
        == row_number(b, 52, p * dim + d) by {
        row_is_numbers(b, h.centroids, dim, h.num_partitions, p, d);
    }
    assert forall|i: int, d: int|
        0 <= i < parts.raw.len() && 0 <= d < dim implies #[trigger] parts.raw[i][d] == row_number(
        b,
        100,
        i * dim + d,
    ) by {
        row_is_numbers(b, h.raw, dim, h.num_vectors, i, d);
    }
    assert forall|p: int| 0 <= p < parts.partitions.len() implies (#[trigger] parts.partitions[p]).len()
        == table_number(b, p, 2) by {
        table_holds(b, p);
    }
    assert forall|p: int, i: int|
        0 <= p < parts.partitions.len() && 0 <= i < parts.partitions[p].len() implies {
        let entry = #[trigger] parts.partitions[p][i];
        entry_stands(b, entry_place(b, p, i), entry.0, entry.1)
    } by {
        table_holds(b, p);
        entry_is_read(b, p, i);
    }
}

/// The bytes behind the header with the four bytes of the checksum set to zero.
pub open spec fn is_checked(b: Seq<u8>, data: Seq<u8>) -> bool {
    let manifest = protocol_laws::eight(b, 132);
    &&& data.len() == b.len() - 148
    &&& forall|i: int|
        0 <= i < data.len() ==> #[trigger] data[i] == if manifest + 8 <= i + 148 < manifest + 12 {
            0u8
        } else {
            b[i + 148]
        }
}

/// The checksum that a file holds is that of its bytes behind the header.
pub open spec fn checksum_is_right(b: Seq<u8>) -> bool {
    forall|data: Seq<u8>| #[trigger]
        is_checked(b, data) ==> checksum::crc_of(data) == protocol_laws::four(
            b,
            protocol_laws::eight(b, 132) + 8,
        )
}

/// The ids of a partition are numbers of vectors.
pub open spec fn names_vectors(b: Seq<u8>, p: int) -> bool {
    forall|i: int|
        0 <= i < table_number(b, p, 2) ==> #[trigger] id_of_entry(b, p, i) < protocol_laws::eight(
            b,
            20,
        )
}

/// The id of an entry.
pub open spec fn id_of_entry(b: Seq<u8>, p: int, i: int) -> int {
    protocol_laws::eight(b, entry_place(b, p, i))
}

/// A file can be loaded: it starts with the letters VDBRQIDX and version 1, all parts lie in it, its
/// payloads can be read, its checksum is right, its dimensions come in words of 64 bits with a square
/// rotation, and its entries name vectors.
pub open spec fn can_be_loaded(b: Seq<u8>) -> bool {
    let dim = protocol_laws::four(b, 12);
    &&& b.len() >= 148
    &&& b[0] == 0x56
    &&& b[1] == 0x44
    &&& b[2] == 0x42
    &&& b[3] == 0x52
    &&& b[4] == 0x51
    &&& b[5] == 0x49
    &&& b[6] == 0x44
    &&& b[7] == 0x58
    &&& protocol_laws::four(b, 8) == 1
    &&& is_whole(b)
    &&& protocol_laws::eight(b, 124) > 0 ==> payload::payloads_of_json(
        b.subrange(
            protocol_laws::eight(b, 116),
            protocol_laws::eight(b, 116) + protocol_laws::eight(b, 124),
        ),
    ) is Some
    &&& 148 <= protocol_laws::eight(b, 132)
    &&& protocol_laws::eight(b, 132) + 16 <= b.len()
    &&& checksum_is_right(b)
    &&& dim % 64 == 0
    &&& protocol_laws::eight(b, 44) / 4 == dim * dim
    &&& forall|p: int| 0 <= p < protocol_laws::four(b, 16) ==> #[trigger] names_vectors(b, p)
}

/// The magic is eight letters.
pub proof fn magic_is_spelled(b: Seq<u8>)
    requires
        b.len() >= 8,
    ensures
        b.subrange(0, 8) == storage_format::MAGIC@ <==> {
            &&& b[0] == 0x56
            &&& b[1] == 0x44
            &&& b[2] == 0x42
            &&& b[3] == 0x52
            &&& b[4] == 0x51
            &&& b[5] == 0x49
            &&& b[6] == 0x44
            &&& b[7] == 0x58
        },
{
    let s = b.subrange(0, 8);
    let m = storage_format::MAGIC@;
    assert(m.len() == 8);
    assert(m[0] == 0x56 && m[1] == 0x44 && m[2] == 0x42 && m[3] == 0x52);
    assert(m[4] == 0x51 && m[5] == 0x49 && m[6] == 0x44 && m[7] == 0x58);
    assert(s[0] == b[0] && s[1] == b[1] && s[2] == b[2] && s[3] == b[3]);
    assert(s[4] == b[4] && s[5] == b[5] && s[6] == b[6] && s[7] == b[7]);
    if s[0] == m[0] && s[1] == m[1] && s[2] == m[2] && s[3] == m[3] && s[4] == m[4] && s[5] == m[5]
        && s[6] == m[6] && s[7] == m[7] {
        assert(s =~= m);
    }
}

/// The checksum is checked against the bytes behind the header.
pub proof fn checksum_is_checked(b: Seq<u8>)
    requires
        b.len() >= 148,
        protocol_laws::eight(b, 132) + 12 <= b.len(),
    ensures
        checksum_is_right(b) <==> storage::checksum_holds(b, protocol_laws::eight(b, 132)),
{
    let manifest = protocol_laws::eight(b, 132);
    let data = storage::checked_contents(b, manifest);
    protocol_laws::words_are_little_endian(b, manifest + 8);
    assert(is_checked(b, data));
    if storage::checksum_holds(b, manifest) {
        assert forall|other: Seq<u8>| #[trigger] is_checked(b, other) implies checksum::crc_of(other)
            == protocol_laws::four(b, manifest + 8) by {
            assert(other =~= data);
        }
    }
}

proof fn ids_are_numbers(b: Seq<u8>, p: int)
    requires
        b.len() >= 148,
        is_whole(b),
        0 <= p < protocol_laws::four(b, 16),
    ensures
        ({
            let parts = storage::parts_of(b, storage_format::header_of(b));
            names_vectors(b, p) <==> storage::ids_below(parts.partitions[p], parts.raw.len())
        }),
{
    headers_are_read(b);
    whole_is_readable(b);
    table_holds(b, p);
    let parts = storage::parts_of(b, storage_format::header_of(b));
    assert forall|i: int| 0 <= i < table_number(b, p, 2) implies #[trigger] id_of_entry(b, p, i)
        == parts.partitions[p][i].0 by {
        entry_is_read(b, p, i);
    }
    if names_vectors(b, p) {
        assert forall|i: int| 0 <= i < parts.partitions[p].len() implies (
        #[trigger] parts.partitions[p][i]).0 < parts.raw.len() by {
            assert(id_of_entry(b, p, i) == parts.partitions[p][i].0);
        }
    }
}

/// A file is loaded exactly where it can be.
#[verifier::rlimit(30)]
pub proof fn files_are_loaded(b: Seq<u8>)
    ensures
        storage::load_fault(b) is None <==> can_be_loaded(b),
{
    if b.len() >= 148 {
        headers_are_read(b);
        magic_is_spelled(b);
        whole_is_readable(b);
        let h = storage_format::header_of(b);
        let parts = storage::parts_of(b, h);
        if protocol_laws::eight(b, 132) >= 148 && protocol_laws::eight(b, 132) + 12 <= b.len() {
            checksum_is_checked(b);
        }
        if is_whole(b) {
            assert forall|p: int| 0 <= p < protocol_laws::four(b, 16) implies #[trigger] names_vectors(
                b,
                p,
            ) <==> storage::ids_below(parts.partitions[p], parts.raw.len()) by {
                ids_are_numbers(b, p);
            }
            if forall|p: int|
                0 <= p < protocol_laws::four(b, 16) ==> #[trigger] names_vectors(b, p) {
                assert forall|p: int| 0 <= p < parts.partitions.len() implies #[trigger] storage::ids_below(
                    parts.partitions[p],
                    parts.raw.len(),
                ) by {
                    assert(names_vectors(b, p));
                }
            }
            if storage::consistent(parts) {
                assert forall|p: int| 0 <= p < protocol_laws::four(b, 16) implies #[trigger] names_vectors(
                    b,
                    p,
                ) by {
                    assert(storage::ids_below(parts.partitions[p], parts.raw.len()));
                }
            }
        }
    }
}

/// A saved file holds its parts one behind the other: the header, the rotation, the centroids, the
/// entries of the partitions, the table of the partitions, the vectors, the payloads, and the
/// manifest.
pub proof fn saved_parts_follow_each_other(m: IndexModel, json: Seq<u8>)
    requires
        storage_laws::storable(m, json),
    ensures
        ({
            let b = storage_save::index_file(m, json);
            let n = m.partitions.len();
            &&& protocol_laws::four(b, 8) == 1
            &&& b[0] == 0x56
            &&& b[1] == 0x44
            &&& b[2] == 0x42
            &&& b[3] == 0x52
            &&& b[4] == 0x51
            &&& b[5] == 0x49
            &&& b[6] == 0x44
            &&& b[7] == 0x58
            &&& protocol_laws::four(b, 12) == m.dim
            &&& protocol_laws::four(b, 16) == n
            &&& protocol_laws::eight(b, 20) == m.raw.len()
            &&& protocol_laws::eight(b, 28) == m.next_id
            &&& protocol_laws::eight(b, 36) == 148
            &&& protocol_laws::eight(b, 52) == protocol_laws::eight(b, 36) + protocol_laws::eight(
                b,
                44,
            )
            &&& protocol_laws::eight(b, 84) == protocol_laws::eight(b, 52) + protocol_laws::eight(
                b,
                60,
            )
            &&& protocol_laws::eight(b, 68) == protocol_laws::eight(b, 84) + protocol_laws::eight(
                b,
                92,
            )
            &&& protocol_laws::eight(b, 100) == protocol_laws::eight(b, 68) + protocol_laws::eight(
                b,
                76,
            )
            &&& protocol_laws::eight(b, 116) == protocol_laws::eight(b, 100) + protocol_laws::eight(
                b,
                108,
            )
            &&& protocol_laws::eight(b, 132) == protocol_laws::eight(b, 116) + protocol_laws::eight(
                b,
                124,
            )
            &&& protocol_laws::eight(b, 140) == 16
            &&& b.len() == protocol_laws::eight(b, 132) + 16
            &&& protocol_laws::eight(b, 44) == 4 * m.rotation@.len()
            &&& protocol_laws::eight(b, 60) == 4 * (n * m.dim)
            &&& protocol_laws::eight(b, 76) == 24 * n
            &&& protocol_laws::eight(b, 108) == 4 * (m.raw.len() * m.dim)
            &&& b.subrange(protocol_laws::eight(b, 116), protocol_laws::eight(b, 132)) == json
            &&& protocol_laws::eight(b, protocol_laws::eight(b, 132)) == m.next_id
            &&& protocol_laws::four(b, protocol_laws::eight(b, 132) + 12) == 0
            &&& checksum_is_right(b)
        }),
{
    storage_laws::file_sections(m, json);
    storage_laws::saved_checksum_holds(m, json);
    let b = storage_save::index_file(m, json);
    let at = storage_save::layout_of(m, json);
    headers_are_read(b);
    magic_is_spelled(b);
    checksum_is_checked(b);
    storage_laws::rows_round_trip(m.centroids, m.dim);
    storage_laws::rows_round_trip(m.raw, m.dim);
    storage_laws::metas_round_trip(m.partitions, at.centroids);
    blocks::words_round_trip(m.rotation@);
    let (n, dim, r) = (m.partitions.len() as int, m.dim, m.raw.len() as int);
    assert(n * (4 * dim) == 4 * (n * dim)) by (nonlinear_arith);
    assert(r * (4 * dim) == 4 * (r * dim)) by (nonlinear_arith);
    let body = storage_save::body(m, json, 0);
    let manifest = storage_format::Manifest {
        version: m.next_id,
        checksum: checksum::crc_of(body),
    };
    manifests_are_written(manifest);
    let tail = manifest.bytes();
    assert forall|i: int| 0 <= i < 16 implies #[trigger] b[at.payload + i] == tail[i] by {}
    assert(b[at.payload] == tail[0] && b[at.payload + 1] == tail[1] && b[at.payload + 2] == tail[2]
        && b[at.payload + 3] == tail[3]);
    assert(b[at.payload + 4] == tail[4] && b[at.payload + 5] == tail[5] && b[at.payload + 6]
        == tail[6] && b[at.payload + 7] == tail[7]);
    assert(b[at.payload + 12] == tail[12] && b[at.payload + 13] == tail[13] && b[at.payload + 14]
        == tail[14] && b[at.payload + 15] == tail[15]);
}

} // verus!
