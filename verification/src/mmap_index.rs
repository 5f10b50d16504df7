//! An index that is searched in its file: only what says where things are is read when it is
//! opened, codes and vectors are read when a search needs them.

use crate::blocks;
use crate::checksum;
pub use crate::chunked_storage::{ChunkLayout, ChunkedMmapStorage, MmapError};
use crate::chunked_storage;
use crate::clustering;
use crate::ieee;
use crate::index_ivf_rq;
use crate::index_ivf_rq::{RabitqCode, RabitqConfig, RabitqQuantizer};
use crate::little_endian;
use crate::ordering;
use crate::rabitq;
use crate::search::QueryCode;
use crate::search;
use crate::storage;
use crate::storage_format::{Header, HeaderModel, MetaModel, PartitionMeta};
use crate::storage_format;
use crate::storage_laws;
use vstd::prelude::*;
use vstd::slice::slice_subrange;

verus! {

/// How many bytes the checksum takes at a time.
pub const CRC_STREAM_BUF: u64 = 262_144;

/// A part of a file, if the file reaches that far.
pub open spec fn part_at(f: Seq<u8>, at: (nat, nat)) -> Option<Seq<u8>> {
    if at.0 + at.1 <= f.len() {
        Some(f.subrange(at.0 as int, (at.0 + at.1) as int))
    } else {
        None
    }
}

/// A function can fail to hand out bytes of a part of a file that reaches that far.
pub open spec fn can_fail_in<F: Fn(u64, usize, usize) -> Option<Vec<u8>>>(
    fetch: F,
    layout: ChunkLayout,
    at: (nat, nat),
) -> bool {
    &&& at.0 + at.1 <= layout.file_len
    &&& chunked_storage::can_fail(fetch, layout, at.0 as int, (at.0 + at.1) as int)
}

/// A function can fail to hand out bytes of a file.
pub open spec fn can_fail_at_all<F: Fn(u64, usize, usize) -> Option<Vec<u8>>>(
    fetch: F,
    layout: ChunkLayout,
) -> bool {
    chunked_storage::can_fail(fetch, layout, 0, layout.file_len as int)
}

/// A function that can fail in a part of a file can fail at all.
pub proof fn failing_in_a_part<F: Fn(u64, usize, usize) -> Option<Vec<u8>>>(
    fetch: F,
    layout: ChunkLayout,
    at: (nat, nat),
)
    requires
        can_fail_in(fetch, layout, at),
    ensures
        can_fail_at_all(fetch, layout),
{
    chunked_storage::failing_part_fails_the_whole(
        fetch,
        layout,
        (at.0 as int, (at.0 + at.1) as int),
        (0, layout.file_len as int),
    );
}

/// What is wrong with the beginning of a file.
pub open spec fn head_fault(f: Seq<u8>) -> Option<MmapError> {
    let h = storage_format::header_of(f);
    if f.len() == 0 {
        Some(MmapError::Empty)
    } else if f.len() < 148 {
        Some(MmapError::OutOfBounds)
    } else if h.magic != storage_format::MAGIC@ {
        Some(MmapError::BadMagic)
    } else if h.version != storage_format::FORMAT_VERSION {
        Some(MmapError::UnsupportedVersion)
    } else {
        None
    }
}

/// What is wrong with the checksum of a file.
pub open spec fn stream_fault(f: Seq<u8>) -> Option<MmapError> {
    let at = storage_format::header_of(f).manifest.0 as int;
    if at + 12 > f.len() {
        Some(MmapError::OutOfBounds)
    } else if !storage::checksum_holds(f, at) {
        Some(MmapError::ChecksumMismatch)
    } else {
        None
    }
}

/// What is wrong with the rotation of a file.
pub open spec fn rotation_fault(f: Seq<u8>) -> Option<MmapError> {
    let h = storage_format::header_of(f);
    if h.dim % 64 != 0 {
        Some(MmapError::Malformed)
    } else if part_at(f, h.rotation) is None {
        Some(MmapError::OutOfBounds)
    } else if h.rotation.1 % 4 != 0 || h.rotation.1 / 4 != h.dim * h.dim {
        Some(MmapError::Malformed)
    } else {
        None
    }
}

/// What is wrong with the centroids of a file.
pub open spec fn centroid_fault(f: Seq<u8>) -> Option<MmapError> {
    let h = storage_format::header_of(f);
    if part_at(f, h.centroids) is None {
        Some(MmapError::OutOfBounds)
    } else if h.centroids.1 % 4 != 0 || h.num_partitions * h.dim > h.centroids.1 / 4 {
        Some(MmapError::Malformed)
    } else {
        None
    }
}

/// The note of a file on a partition.
pub open spec fn mapped_meta(f: Seq<u8>, p: int) -> MetaModel {
    storage_format::meta_at(part_at(f, storage_format::header_of(f).partition_meta)->0, 24 * p)
}

/// The entries of a partition fit into the bytes it has.
pub open spec fn fits(meta: MetaModel, dim: nat) -> bool {
    meta.count * storage::entry_size(dim) <= meta.len
}

/// What is wrong with the notes of a file on its partitions.
pub open spec fn meta_fault(f: Seq<u8>) -> Option<MmapError> {
    let h = storage_format::header_of(f);
    if part_at(f, h.partition_meta) is None {
        Some(MmapError::OutOfBounds)
    } else if 24 * h.num_partitions > h.partition_meta.1 {
        Some(MmapError::Malformed)
    } else if !(forall|p: int| 0 <= p < h.num_partitions ==> fits(#[trigger] mapped_meta(f, p), h.dim))
        || h.num_vectors > usize::MAX {
        Some(MmapError::Malformed)
    } else {
        None
    }
}

/// The first fault of two.
pub open spec fn or_else(a: Option<MmapError>, b: Option<MmapError>) -> Option<MmapError> {
    if a is Some {
        a
    } else {
        b
    }
}

/// Why a file cannot be opened.
pub open spec fn open_fault(f: Seq<u8>) -> Option<MmapError> {
    or_else(
        head_fault(f),
        or_else(
            stream_fault(f),
            or_else(rotation_fault(f), or_else(centroid_fault(f), meta_fault(f))),
        ),
    )
}

/// The model of a `MmapIndex`.
#[verifier::ext_equal]
pub struct MappedModel {
    pub layout: ChunkLayout,
    pub header: HeaderModel,
    /// The configuration of the quantizer.
    pub coder: RabitqConfig,
    pub rotation: Vec<u32>,
    pub centroids: Seq<Vec<u32>>,
    pub rotated_centroids: Seq<Vec<u32>>,
    pub norms: Seq<u32>,
    pub metas: Seq<MetaModel>,
}

impl MappedModel {
    /// What was read fits together.
    pub open spec fn wf(self) -> bool {
        &&& self.layout.wf()
        &&& self.header.dim % 64 == 0
        &&& self.header.dim <= u32::MAX
        &&& self.header.num_partitions <= u32::MAX
        &&& self.header.num_vectors <= usize::MAX
        &&& self.coder == rabitq::default_config(self.header.dim as usize)
        &&& self.rotation@.len() == self.header.dim * self.header.dim
        &&& self.centroids.len() == self.header.num_partitions
        &&& clustering::all_of_dim(self.centroids, self.header.dim as int)
        &&& self.rotated_centroids.len() == self.header.num_partitions
        &&& clustering::all_of_dim(self.rotated_centroids, self.header.dim as int)
        &&& self.norms.len() == self.header.num_partitions
        &&& self.metas.len() == self.header.num_partitions
        &&& forall|p: int| 0 <= p < self.metas.len() ==> fits(#[trigger] self.metas[p], self.header.dim)
    }

    /// What was read is what the file `f` says.
    pub open spec fn describes(self, f: Seq<u8>) -> bool {
        let h = storage_format::header_of(f);
        &&& f.len() == self.layout.file_len
        &&& self.header == h
        &&& self.rotation@ == blocks::bytes_to_words(part_at(f, h.rotation)->0)
        &&& storage::row_views(self.centroids) == storage::rows_of(
            blocks::bytes_to_words(part_at(f, h.centroids)->0),
            h.dim as int,
            h.num_partitions,
        )
        &&& self.metas == Seq::new(h.num_partitions, |p: int| mapped_meta(f, p))
    }
}

/// An index in a file that is read in chunks.
#[derive(Debug)]
pub struct MmapIndex {
    layout: ChunkLayout,
    header: Header,
    quantizer: RabitqQuantizer,
    centroids: Vec<Vec<u32>>,
    rotated_centroids: Vec<Vec<u32>>,
    rotated_centroid_norms_sq: Vec<u32>,
    partition_metas: Vec<PartitionMeta>,
}

/// The views of notes on partitions.
pub open spec fn meta_views(metas: Seq<PartitionMeta>) -> Seq<MetaModel> {
    metas.map_values(|m: PartitionMeta| m@)
}

/// Sets the bytes from `from` up to `to` to zero.
fn blank(buf: &mut Vec<u8>, from: usize, to: usize)
    requires
        from <= to <= old(buf)@.len(),
    ensures
        final(buf)@.len() == old(buf)@.len(),
        forall|i: int|
            0 <= i < final(buf)@.len() ==> #[trigger] final(buf)@[i] == if from <= i < to {
                0u8
            } else {
                old(buf)@[i]
            },
{
    let ghost start = buf@;
    let mut i: usize = from;
    while i < to
        invariant
            from <= i <= to <= buf@.len(),
            buf@.len() == start.len(),
            forall|j: int|
                0 <= j < buf@.len() ==> #[trigger] buf@[j] == if from <= j < i {
                    0u8
                } else {
                    start[j]
                },
        decreases to - i,
    {
        buf.set(i, 0);
        i += 1;
    }
}

/// Tests the checksum of a file piece by piece, so that no piece has to be large.
pub fn verify_checksum_streaming<F: Fn(u64, usize, usize) -> Option<Vec<u8>>>(
    layout: &ChunkLayout,
    header: &Header,
    fetch: &F,
) -> (r: Result<(), MmapError>)
    requires
        layout.wf(),
        layout.file_len >= 148,
        chunked_storage::serves_some(*fetch, *layout),
        forall|f: Seq<u8>| #[trigger]
            chunked_storage::serves(*fetch, f, *layout) ==> header@ == storage_format::header_of(f),
    ensures
        match r {
            Ok(_) => forall|f: Seq<u8>| #[trigger]
                chunked_storage::serves(*fetch, f, *layout) ==> stream_fault(f) is None,
            Err(MmapError::Unreadable) => can_fail_at_all(*fetch, *layout),
            Err(e) => forall|f: Seq<u8>| #[trigger]
                chunked_storage::serves(*fetch, f, *layout) ==> stream_fault(f) == Some(e),
        },
{
    let file_len: u64 = layout.file_len as u64;
    let manifest: u64 = header.manifest_offset;
    if manifest > file_len || file_len - manifest < 12 {
        return Err(MmapError::OutOfBounds);
    }
    let sum_start: u64 = manifest + 8;
    let sum_end: u64 = manifest + 12;
    let mut crc: u32 = checksum::crc32_init();
    let mut offset: u64 = 148;
    assert forall|f: Seq<u8>| #[trigger] chunked_storage::serves(*fetch, f, *layout) implies crc
        == checksum::crc_bytes(
        0xFFFF_FFFF,
        storage::checked_contents(f, manifest as int).take(offset - 148),
    ) by {
        assert(storage::checked_contents(f, manifest as int).take(0) =~= Seq::empty());
    }
    while offset < file_len
        invariant
            148 <= offset <= file_len,
            file_len == layout.file_len,
            layout.wf(),
            chunked_storage::serves_some(*fetch, *layout),
            sum_start == manifest + 8,
            sum_end == manifest + 12,
            sum_end <= file_len,
            forall|f: Seq<u8>| #[trigger]
                chunked_storage::serves(*fetch, f, *layout) ==> crc == checksum::crc_bytes(
                    0xFFFF_FFFF,
                    storage::checked_contents(f, manifest as int).take(offset - 148),
                ),
        decreases file_len - offset,
    {
        let n: u64 = if file_len - offset < CRC_STREAM_BUF {
            file_len - offset
        } else {
            CRC_STREAM_BUF
        };
        let mut buf: Vec<u8> = match layout.read(offset, n, fetch) {
            Ok(buf) => buf,
            Err(_) => {
                return Err(MmapError::Unreadable);
            },
        };
        let ghost whole = buf@;
        if offset + n > sum_start && offset < sum_end {
            let from: u64 = if sum_start > offset {
                sum_start - offset
            } else {
                0
            };
            let to: u64 = if sum_end < offset + n {
                sum_end - offset
            } else {
                n
            };
            blank(&mut buf, from as usize, to as usize);
        }
        let next: u32 = checksum::crc32_update(crc, buf.as_slice());
        assert forall|f: Seq<u8>| #[trigger]
            chunked_storage::serves(*fetch, f, *layout) implies next == checksum::crc_bytes(
            0xFFFF_FFFF,
            storage::checked_contents(f, manifest as int).take(offset + n - 148),
        ) by {
            let all = storage::checked_contents(f, manifest as int);
            let done = all.take(offset - 148);
            assert(whole == f.subrange(offset as int, offset + n));
            assert forall|i: int| 0 <= i < n implies buf@[i] == #[trigger] all.subrange(
                offset - 148,
                offset + n - 148,
            )[i] by {
                assert(whole[i] == f[offset + i]);
                assert(all[offset - 148 + i] == if manifest + 8 <= offset + i < manifest + 12 {
                    0u8
                } else {
                    f[offset + i]
                });
            }
            assert(buf@ =~= all.subrange(offset - 148, offset + n - 148));
            assert(all.take(offset + n - 148) =~= done + buf@);
            checksum::crc_bytes_concat(0xFFFF_FFFF, done, buf@);
        }
        crc = next;
        offset += n;
    }
    let computed: u32 = checksum::crc32_finalize(crc);
    let stored: Vec<u8> = match layout.read(sum_start, 4, fetch) {
        Ok(stored) => stored,
        Err(_) => {
            return Err(MmapError::Unreadable);
        },
    };
    let wanted: u32 = little_endian::read_u32(stored.as_slice(), 0);
    assert forall|f: Seq<u8>| #[trigger]
        chunked_storage::serves(*fetch, f, *layout) implies stream_fault(f) == if computed
        == wanted {
        None
    } else {
        Some(MmapError::ChecksumMismatch)
    } by {
        let all = storage::checked_contents(f, manifest as int);
        assert(all.take(offset - 148) =~= all);
        assert(stored@.subrange(0, 4) =~= f.subrange(manifest + 8, manifest + 12));
    }
    if computed == wanted {
        Ok(())
    } else {
        Err(MmapError::ChecksumMismatch)
    }
}

/// Reads the header of a file.
fn read_header<F: Fn(u64, usize, usize) -> Option<Vec<u8>>>(layout: &ChunkLayout, fetch: &F) -> (r:
    Result<Header, MmapError>)
    requires
        layout.wf(),
        chunked_storage::serves_some(*fetch, *layout),
    ensures
        match r {
            Ok(h) => {
                &&& layout.file_len >= 148
                &&& forall|f: Seq<u8>| #[trigger]
                    chunked_storage::serves(*fetch, f, *layout) ==> head_fault(f) is None && h@
                        == storage_format::header_of(f)
            },
            Err(MmapError::Unreadable) => can_fail_in(*fetch, *layout, (0, 148)),
            Err(e) => forall|f: Seq<u8>| #[trigger]
                chunked_storage::serves(*fetch, f, *layout) ==> head_fault(f) == Some(e),
        },
{
    if layout.file_len == 0 {
        return Err(MmapError::Empty);
    }
    let buf: Vec<u8> = match layout.read(0, 148, fetch) {
        Ok(buf) => buf,
        Err(e) => {
            return Err(e);
        },
    };
    let header = match Header::deserialize(buf.as_slice()) {
        Some(h) => h,
        None => {
            assert(false);
            return Err(MmapError::OutOfBounds);
        },
    };
    assert forall|f: Seq<u8>| #[trigger] chunked_storage::serves(*fetch, f, *layout) implies header@
        == storage_format::header_of(f) by {
        assert(buf@ == f.subrange(0, 148));
        storage_laws::same_header(buf@, f);
    }
    let magic_holds: bool = same_bytes(&header.magic, &storage_format::MAGIC);
    if !magic_holds {
        return Err(MmapError::BadMagic);
    }
    if header.version != storage_format::FORMAT_VERSION {
        return Err(MmapError::UnsupportedVersion);
    }
    Ok(header)
}

/// Whether two runs of eight bytes are the same.
fn same_bytes(a: &[u8; 8], b: &[u8; 8]) -> (r: bool)
    ensures
        r == (a@ == b@),
{
    let mut i: usize = 0;
    while i < 8
        invariant
            i <= 8,
            forall|j: int| 0 <= j < i ==> a@[j] == b@[j],
        decreases 8 - i,
    {
        if a[i] != b[i] {
            return false;
        }
        i += 1;
    }
    assert(a@ =~= b@);
    true
}

/// Reads the rotation of a file.
fn read_rotation<F: Fn(u64, usize, usize) -> Option<Vec<u8>>>(
    layout: &ChunkLayout,
    header: &Header,
    fetch: &F,
) -> (r: Result<Vec<u32>, MmapError>)
    requires
        layout.wf(),
        chunked_storage::serves_some(*fetch, *layout),
        forall|f: Seq<u8>| #[trigger]
            chunked_storage::serves(*fetch, f, *layout) ==> header@ == storage_format::header_of(f),
    ensures
        match r {
            Ok(rotation) => {
                &&& header.dim % 64 == 0
                &&& rotation@.len() == header.dim * header.dim
                &&& forall|f: Seq<u8>| #[trigger]
                    chunked_storage::serves(*fetch, f, *layout) ==> rotation_fault(f) is None
                        && rotation@ == blocks::bytes_to_words(part_at(f, header@.rotation)->0)
            },
            Err(MmapError::Unreadable) => can_fail_in(*fetch, *layout, header@.rotation),
            Err(e) => forall|f: Seq<u8>| #[trigger]
                chunked_storage::serves(*fetch, f, *layout) ==> rotation_fault(f) == Some(e),
        },
{
    if header.dim % 64 != 0 {
        return Err(MmapError::Malformed);
    }
    let buf: Vec<u8> = match layout.read(header.rotation_offset, header.rotation_len, fetch) {
        Ok(buf) => buf,
        Err(e) => {
            return Err(e);
        },
    };
    let dim: u64 = header.dim as u64;
    assert(dim * dim <= u64::MAX) by (nonlinear_arith)
        requires
            dim <= 0xFFFF_FFFF,
    ;
    if header.rotation_len % 4 != 0 || header.rotation_len / 4 != dim * dim {
        return Err(MmapError::Malformed);
    }
    Ok(blocks::read_words(buf.as_slice()))
}

/// Reads the centroids of a file.
fn read_centroids<F: Fn(u64, usize, usize) -> Option<Vec<u8>>>(
    layout: &ChunkLayout,
    header: &Header,
    fetch: &F,
) -> (r: Result<Vec<Vec<u32>>, MmapError>)
    requires
        layout.wf(),
        chunked_storage::serves_some(*fetch, *layout),
        forall|f: Seq<u8>| #[trigger]
            chunked_storage::serves(*fetch, f, *layout) ==> header@ == storage_format::header_of(f),
    ensures
        match r {
            Ok(centroids) => {
                &&& centroids@.len() == header.num_partitions
                &&& clustering::all_of_dim(centroids@, header.dim as int)
                &&& forall|f: Seq<u8>| #[trigger]
                    chunked_storage::serves(*fetch, f, *layout) ==> centroid_fault(f) is None
                        && storage::row_views(centroids@) == storage::rows_of(
                        blocks::bytes_to_words(part_at(f, header@.centroids)->0),
                        header@.dim as int,
                        header@.num_partitions,
                    )
            },
            Err(MmapError::Unreadable) => can_fail_in(*fetch, *layout, header@.centroids),
            Err(e) => forall|f: Seq<u8>| #[trigger]
                chunked_storage::serves(*fetch, f, *layout) ==> centroid_fault(f) == Some(e),
        },
{
    let buf: Vec<u8> = match layout.read(header.centroids_offset, header.centroids_len, fetch) {
        Ok(buf) => buf,
        Err(e) => {
            return Err(e);
        },
    };
    let dim: u64 = header.dim as u64;
    let n: u64 = header.num_partitions as u64;
    assert(n * dim <= u64::MAX) by (nonlinear_arith)
        requires
            n <= 0xFFFF_FFFF,
            dim <= 0xFFFF_FFFF,
    ;
    if header.centroids_len % 4 != 0 || n * dim > header.centroids_len / 4 {
        return Err(MmapError::Malformed);
    }
    let words = blocks::read_words(buf.as_slice());
    assert(words@.len() == header.centroids_len / 4);
    let centroids = storage::read_rows(&words, header.dim as usize, header.num_partitions as usize);
    assert(storage::row_views(centroids@).len() == header.num_partitions);
    assert forall|i: int| 0 <= i < centroids@.len() implies (#[trigger] centroids@[i])@.len()
        == header.dim by {
        assert(storage::row_views(centroids@)[i] == storage::row_of(words@, dim as int, i));
        assert(0 <= i * dim && i * dim + dim <= n * dim) by (nonlinear_arith)
            requires
                0 <= i < n,
        ;
    }
    Ok(centroids)
}

/// Reads the notes of a file on its partitions.
fn read_metas<F: Fn(u64, usize, usize) -> Option<Vec<u8>>>(
    layout: &ChunkLayout,
    header: &Header,
    fetch: &F,
) -> (r: Result<Vec<PartitionMeta>, MmapError>)
    requires
        layout.wf(),
        chunked_storage::serves_some(*fetch, *layout),
        forall|f: Seq<u8>| #[trigger]
            chunked_storage::serves(*fetch, f, *layout) ==> header@ == storage_format::header_of(f),
    ensures
        match r {
            Ok(metas) => {
                &&& metas@.len() == header.num_partitions
                &&& header.num_vectors <= usize::MAX
                &&& forall|p: int|
                    0 <= p < metas@.len() ==> fits((#[trigger] metas@[p])@, header@.dim)
                &&& forall|f: Seq<u8>| #[trigger]
                    chunked_storage::serves(*fetch, f, *layout) ==> meta_fault(f) is None
                        && meta_views(metas@) == Seq::new(
                        header@.num_partitions,
                        |p: int| mapped_meta(f, p),
                    )
            },
            Err(MmapError::Unreadable) => can_fail_in(*fetch, *layout, header@.partition_meta),
            Err(e) => forall|f: Seq<u8>| #[trigger]
                chunked_storage::serves(*fetch, f, *layout) ==> meta_fault(f) == Some(e),
        },
{
    let buf: Vec<u8> = match layout.read(
        header.partition_meta_offset,
        header.partition_meta_len,
        fetch,
    ) {
        Ok(buf) => buf,
        Err(e) => {
            return Err(e);
        },
    };
    let n: u64 = header.num_partitions as u64;
    if 24 * n > header.partition_meta_len {
        return Err(MmapError::Malformed);
    }
    let size: u64 = 16 + header.dim as u64 / 8;
    let mut metas: Vec<PartitionMeta> = Vec::new();
    let mut fitting: bool = true;
    let mut p: u64 = 0;
    let len: usize = buf.len();
    while p < n
        invariant
            p <= n,
            n == header@.num_partitions,
            24 * n <= buf@.len(),
            len == buf@.len(),
            size == storage::entry_size(header@.dim),
            size <= 0x2000_0010,
            metas@.len() == p,
            forall|q: int|
                0 <= q < p ==> (#[trigger] metas@[q])@ == storage_format::meta_at(buf@, 24 * q),
            fitting == forall|q: int|
                0 <= q < p ==> fits((#[trigger] metas@[q])@, header@.dim),
        decreases n - p,
    {
        let meta = storage::read_meta(buf.as_slice(), p as usize);
        assert(meta.count * size <= u128::MAX) by (nonlinear_arith)
            requires
                meta.count <= 0xFFFF_FFFF_FFFF_FFFF,
                0 <= size <= 0x2000_0010,
        ;
        let fits_here: bool = meta.count as u128 * size as u128 <= meta.len as u128;
        let ghost before = metas@;
        metas.push(meta);
        proof {
            assert(fits_here == fits(meta@, header@.dim));
            if fitting && fits_here {
                assert forall|q: int| 0 <= q < p + 1 implies fits(
                    (#[trigger] metas@[q])@,
                    header@.dim,
                ) by {
                    if q < p {
                        assert(metas@[q] == before[q]);
                    }
                }
            } else if !fits_here {
                assert(!fits(metas@[p as int]@, header@.dim));
            } else {
                let q = choose|q: int|
                    0 <= q < p && !fits((#[trigger] before[q])@, header@.dim);
                assert(!fits(metas@[q]@, header@.dim));
            }
        }
        if !fits_here {
            fitting = false;
        }
        p += 1;
    }
    assert forall|f: Seq<u8>| #[trigger] chunked_storage::serves(*fetch, f, *layout) implies {
        &&& meta_views(metas@) == Seq::new(header@.num_partitions, |p: int| mapped_meta(f, p))
        &&& fitting == forall|p: int|
            0 <= p < header@.num_partitions ==> fits(#[trigger] mapped_meta(f, p), header@.dim)
    } by {
        assert(buf@ == part_at(f, header@.partition_meta)->0);
        assert(meta_views(metas@) =~= Seq::new(header@.num_partitions, |p: int| mapped_meta(f, p)));
        assert forall|q: int| 0 <= q < n implies (#[trigger] metas@[q])@ == mapped_meta(f, q) by {}
        if fitting {
            assert forall|p: int| 0 <= p < header@.num_partitions implies fits(
                #[trigger] mapped_meta(f, p),
                header@.dim,
            ) by {
                assert(fits(metas@[p]@, header@.dim));
            }
        } else {
            let q = choose|q: int| 0 <= q < n && !fits((#[trigger] metas@[q])@, header@.dim);
            assert(!fits(mapped_meta(f, q), header@.dim));
        }
    }
    if !fitting || header.num_vectors > usize::MAX as u64 {
        return Err(MmapError::Malformed);
    }
    Ok(metas)
}

impl MmapIndex {
    /// What was read when the index was opened.
    pub closed spec fn view(&self) -> MappedModel {
        MappedModel {
            layout: self.layout,
            header: self.header@,
            coder: self.quantizer.settings(),
            rotation: self.quantizer.matrix(),
            centroids: self.centroids@,
            rotated_centroids: self.rotated_centroids@,
            norms: self.rotated_centroid_norms_sq@,
            metas: meta_views(self.partition_metas@),
        }
    }

    /// The model is well formed, and the quantizer has the dimension of the index.
    pub closed spec fn wf(&self) -> bool {
        &&& self@.wf()
        &&& self.quantizer.wf()
        &&& self.quantizer.dim() == self.header.dim
    }

    /// The model of an index is well formed.
    pub proof fn wf_model(&self)
        requires
            self.wf(),
        ensures
            self@.wf(),
    {
    }

    /// Opens an index: its header, rotation, centroids and notes on partitions are read, and its
    /// checksum is tested. No code and no vector is kept.
    ///
    /// `rotate` and `norm` are the arithmetic of the rotated centroids.
    pub fn open<
        F: Fn(u64, usize, usize) -> Option<Vec<u8>>,
        R: Fn(&Vec<u32>, &Vec<u32>) -> Vec<u32>,
        N: Fn(&Vec<u32>) -> u32,
    >(storage: &ChunkedMmapStorage, fetch: &F, rotate: &R, norm: &N) -> (r: Result<Self, MmapError>)
        requires
            storage.wf(),
            chunked_storage::serves_some(*fetch, storage@.layout),
            rabitq::keeps_dim(*rotate),
            forall|v: Vec<u32>| #[trigger] call_requires(*norm, (&v,)),
        ensures
            match r {
                Ok(index) => {
                    &&& index.wf()
                    &&& index@.layout == storage@.layout
                    &&& index_ivf_rq::all_rotated(
                        *rotate,
                        index@.rotation,
                        index@.centroids,
                        index@.rotated_centroids,
                    )
                    &&& index_ivf_rq::all_measured(
                        *norm,
                        index@.rotated_centroids,
                        index@.norms,
                    )
                    &&& forall|f: Seq<u8>| #[trigger]
                        chunked_storage::serves(*fetch, f, storage@.layout) ==> open_fault(f) is None
                            && index@.describes(f)
                },
                Err(MmapError::Unreadable) => can_fail_at_all(*fetch, storage@.layout),
                Err(e) => forall|f: Seq<u8>| #[trigger]
                    chunked_storage::serves(*fetch, f, storage@.layout) ==> open_fault(f) == Some(e),
            },
    {
        let layout = storage.layout();
        proof {
            storage.wf_model();
        }
        let header = match read_header(&layout, fetch) {
            Ok(h) => h,
            Err(e) => {
                return Err(e);
            },
        };
        if let Err(e) = verify_checksum_streaming(&layout, &header, fetch) {
            return Err(e);
        }
        let rotation = match read_rotation(&layout, &header, fetch) {
            Ok(rotation) => rotation,
            Err(e) => {
                return Err(e);
            },
        };
        let centroids = match read_centroids(&layout, &header, fetch) {
            Ok(centroids) => centroids,
            Err(e) => {
                return Err(e);
            },
        };
        let partition_metas = match read_metas(&layout, &header, fetch) {
            Ok(metas) => metas,
            Err(e) => {
                return Err(e);
            },
        };
        let rotated_centroids = index_ivf_rq::rotate_all(&rotation, &centroids, rotate);
        let rotated_centroid_norms_sq = index_ivf_rq::norm_all(&rotated_centroids, norm);
        let config = RabitqConfig::new(header.dim as usize);
        let quantizer = RabitqQuantizer::from_rotation(config, rotation);
        let index = MmapIndex {
            layout,
            header,
            quantizer,
            centroids,
            rotated_centroids,
            rotated_centroid_norms_sq,
            partition_metas,
        };
        assert forall|p: int| 0 <= p < index@.metas.len() implies fits(
            #[trigger] index@.metas[p],
            header@.dim,
        ) by {
            assert(index@.metas[p] == partition_metas@[p]@);
        }
        Ok(index)
    }

    /// How many vectors there are.
    pub fn len(&self) -> (n: usize)
        requires
            self.wf(),
        ensures
            n == self@.header.num_vectors,
    {
        self.header.num_vectors as usize
    }

    /// There is no vector.
    pub fn is_empty(&self) -> (r: bool)
        ensures
            r == (self@.header.num_vectors == 0),
    {
        self.header.num_vectors == 0
    }

    /// The dimension of the vectors.
    pub fn dim(&self) -> (dim: usize)
        ensures
            dim == self@.header.dim,
    {
        self.header.dim as usize
    }

    /// How many partitions there are.
    pub fn num_partitions(&self) -> (n: usize)
        ensures
            n == self@.header.num_partitions,
    {
        self.header.num_partitions as usize
    }

    /// The quantizer of the index.
    pub fn quantizer(&self) -> (quantizer: &RabitqQuantizer)
        requires
            self.wf(),
        ensures
            quantizer.wf(),
            quantizer.dim() == self@.header.dim,
            quantizer.matrix() == self@.rotation,
            quantizer.settings() == self@.coder,
    {
        &self.quantizer
    }
}

/// Where the vector under an id stands in a file.
pub open spec fn vector_place(h: HeaderModel, id: u64) -> (nat, nat) {
    ((h.raw.0 + id * h.dim * 4) as nat, h.dim * 4)
}

/// The vector that a file holds under an id, if the file reaches that far.
pub open spec fn mapped_vector(f: Seq<u8>, id: u64) -> Option<Seq<u32>> {
    let h = storage_format::header_of(f);
    if id < h.num_vectors {
        match part_at(f, vector_place(h, id)) {
            Some(part) => Some(blocks::bytes_to_words(part)),
            None => None,
        }
    } else {
        None
    }
}

/// The entries that a file holds of a partition; none where it does not reach that far.
pub open spec fn mapped_entries(f: Seq<u8>, p: int) -> Seq<(u64, rabitq::Code)> {
    let h = storage_format::header_of(f);
    let meta = mapped_meta(f, p);
    match part_at(f, (meta.offset, meta.len)) {
        Some(part) => storage::entries_of(part, h.dim, meta.count),
        None => Seq::empty(),
    }
}

/// The view of an optional vector.
pub open spec fn vector_view(v: Option<Vec<u32>>) -> Option<Seq<u32>> {
    match v {
        Some(v) => Some(v@),
        None => None,
    }
}

/// A vector was read: it is the one of the file, or bytes of it could not be read.
pub open spec fn vector_read<F: Fn(u64, usize, usize) -> Option<Vec<u8>>>(
    fetch: F,
    m: MappedModel,
    id: u64,
    v: Option<Vec<u32>>,
) -> bool {
    forall|f: Seq<u8>|
        #[trigger] chunked_storage::serves(fetch, f, m.layout) && m.describes(f) ==> {
            ||| vector_view(v) == mapped_vector(f, id)
            ||| v is None && can_fail_in(fetch, m.layout, vector_place(m.header, id))
        }
}

/// A partition was read: its entries are those of the file, or bytes of it could not be read.
pub open spec fn entries_read<F: Fn(u64, usize, usize) -> Option<Vec<u8>>>(
    fetch: F,
    m: MappedModel,
    p: int,
    entries: Seq<(u64, rabitq::Code)>,
) -> bool {
    forall|f: Seq<u8>|
        #[trigger] chunked_storage::serves(fetch, f, m.layout) && m.describes(f) ==> {
            ||| entries == mapped_entries(f, p)
            ||| entries.len() == 0 && can_fail_in(
                fetch,
                m.layout,
                (m.metas[p].offset, m.metas[p].len),
            )
        }
}

/// The candidates of a partition: the entries that were read, with estimated distances.
pub open spec fn scanned<
    F: Fn(u64, usize, usize) -> Option<Vec<u8>>,
    E: Fn(u64, u32, u32) -> u32,
>(
    fetch: F,
    estimate: E,
    m: MappedModel,
    query: RabitqCode,
    p: int,
    entries: Seq<(u64, rabitq::Code)>,
    candidates: Seq<(u64, u32)>,
) -> bool {
    &&& entries_read(fetch, m, p, entries)
    &&& search::estimated(
        estimate,
        QueryCode::Signs(query),
        m.header.dim as int,
        entries,
        candidates,
    )
}

/// The distances of all partitions, as the routing function gave them.
pub open spec fn all_routed<G: Fn(&Vec<u32>, u32) -> u32>(
    route: G,
    m: MappedModel,
    routed: Seq<(usize, u32)>,
) -> bool {
    &&& routed.len() == m.rotated_centroids.len()
    &&& forall|i: int|
        0 <= i < routed.len() ==> {
            &&& (#[trigger] routed[i]).0 == i
            &&& call_ensures(route, (&m.rotated_centroids[i], m.norms[i]), routed[i].1)
        }
}

/// A candidate measured by its vector: one whose vector cannot be read is as far as can be.
pub open spec fn measured_one<
    F: Fn(u64, usize, usize) -> Option<Vec<u8>>,
    X: Fn(&Vec<u32>) -> u32,
>(fetch: F, exact: X, m: MappedModel, before: (u64, u32), after: (u64, u32)) -> bool {
    &&& after.0 == before.0
    &&& exists|v: Option<Vec<u32>>| #[trigger]
        vector_read(fetch, m, before.0, v) && match v {
            Some(v) => call_ensures(exact, (&v,), after.1),
            None => after.1 == ieee::SINGLE_MAX,
        }
}

/// Candidates measured by their vectors, place by place.
pub open spec fn measured<
    F: Fn(u64, usize, usize) -> Option<Vec<u8>>,
    X: Fn(&Vec<u32>) -> u32,
>(
    fetch: F,
    exact: X,
    m: MappedModel,
    before: Seq<(u64, u32)>,
    after: Seq<(u64, u32)>,
) -> bool {
    &&& after.len() == before.len()
    &&& forall|i: int|
        0 <= i < before.len() ==> measured_one(fetch, exact, m, before[i], #[trigger] after[i])
}

/// How many candidates are measured: all where all partitions were looked at, else ten for each
/// result that is wanted.
pub open spec fn measure_count(k: int, nprobe: int, partitions: int, candidates: int) -> int {
    if search::probes(nprobe, partitions) == partitions || 10 * k > candidates {
        candidates
    } else {
        10 * k
    }
}

/// What a search in the file does: it routes to partitions, reads their entries, and ranks the best
/// candidates by their vectors.
pub open spec fn mapped_searched<
    F: Fn(u64, usize, usize) -> Option<Vec<u8>>,
    G: Fn(&Vec<u32>, u32) -> u32,
    E: Fn(u64, u32, u32) -> u32,
    X: Fn(&Vec<u32>) -> u32,
>(
    fetch: F,
    route: G,
    estimate: E,
    exact: X,
    m: MappedModel,
    query: RabitqCode,
    k: int,
    nprobe: int,
    routed: Seq<(usize, u32)>,
    parts: Seq<Seq<(u64, rabitq::Code)>>,
    candidates: Seq<(u64, u32)>,
    ranked: Seq<(u64, u32)>,
    results: Seq<(u64, u32)>,
) -> bool {
    let count = m.header.num_partitions as int;
    let pids = search::nearest_partitions(routed, search::probes(nprobe, count));
    &&& all_routed(route, m, routed)
    &&& parts.len() == pids.len()
    &&& forall|i: int|
        0 <= i < parts.len() ==> entries_read(fetch, m, pids[i] as int, #[trigger] parts[i])
    &&& search::estimated(
        estimate,
        QueryCode::Signs(query),
        m.header.dim as int,
        parts.flatten_alt(),
        candidates,
    )
    &&& measured(
        fetch,
        exact,
        m,
        search::first(
            ordering::by_distance(candidates),
            measure_count(k, nprobe, count, candidates.len() as int),
        ),
        ranked,
    )
    &&& results == search::first(ordering::by_distance(ranked), k)
    &&& candidates.len() <= usize::MAX
    &&& ranked.len() <= usize::MAX
}

/// What a search in the file gives: nothing where nothing is asked for or the index is empty.
pub open spec fn mapped_outcome<
    F: Fn(u64, usize, usize) -> Option<Vec<u8>>,
    G: Fn(&Vec<u32>, u32) -> u32,
    E: Fn(u64, u32, u32) -> u32,
    X: Fn(&Vec<u32>) -> u32,
>(
    fetch: F,
    route: G,
    estimate: E,
    exact: X,
    m: MappedModel,
    query: RabitqCode,
    k: int,
    nprobe: int,
    results: Seq<(u64, u32)>,
) -> bool {
    if m.header.num_vectors == 0 || k == 0 {
        results.len() == 0
    } else {
        exists|
            routed: Seq<(usize, u32)>,
            parts: Seq<Seq<(u64, rabitq::Code)>>,
            candidates: Seq<(u64, u32)>,
            ranked: Seq<(u64, u32)>,
        | #[trigger]
            mapped_searched(
                fetch,
                route,
                estimate,
                exact,
                m,
                query,
                k,
                nprobe,
                routed,
                parts,
                candidates,
                ranked,
                results,
            )
    }
}

/// What is made of a code gives a number for every reading.
pub open spec fn gives_code_estimates<E: Fn(u64, u32, u32) -> u32, EM: Fn(&RabitqCode) -> E>(
    estimating: EM,
) -> bool {
    &&& forall|c: RabitqCode| #[trigger] call_requires(estimating, (&c,))
    &&& forall|c: RabitqCode, e: E| #[trigger]
        call_ensures(estimating, (&c,), e) ==> search::estimates_numbers(e)
}

/// What a search works with is that of the query: the signs and corrections of the query after the
/// rotation, and the functions that were made of it, of its code, and of the query.
pub open spec fn mapped_prepared<
    R: Fn(&Vec<u32>, &Vec<u32>) -> Vec<u32>,
    C: Fn(&Vec<u32>, u32) -> (u32, u32),
    G: Fn(&Vec<u32>, u32) -> u32,
    E: Fn(u64, u32, u32) -> u32,
    X: Fn(&Vec<u32>) -> u32,
    GM: Fn(&Vec<u32>) -> G,
    EM: Fn(&RabitqCode) -> E,
    XM: Fn(&Vec<u32>) -> X,
>(
    rotate: R,
    corrections: C,
    routing: GM,
    estimating: EM,
    measuring: XM,
    m: MappedModel,
    query: Vec<u32>,
    code: RabitqCode,
    route: G,
    estimate: E,
    exact: X,
) -> bool {
    &&& exists|rotated: Vec<u32>|
        {
            &&& #[trigger] call_ensures(rotate, (&m.rotation, &query), rotated)
            &&& rabitq::holds_signs(code@.bits, rotated@)
            &&& call_ensures(corrections, (&rotated, m.coder.epsilon_0), (code@.alpha, code@.beta))
            &&& call_ensures(routing, (&rotated,), route)
        }
    &&& call_ensures(estimating, (&code,), estimate)
    &&& call_ensures(measuring, (&query,), exact)
}

/// What a search for a query gives: nothing where nothing is asked for or the index is empty.
pub open spec fn mapped_query_outcome<
    F: Fn(u64, usize, usize) -> Option<Vec<u8>>,
    R: Fn(&Vec<u32>, &Vec<u32>) -> Vec<u32>,
    C: Fn(&Vec<u32>, u32) -> (u32, u32),
    G: Fn(&Vec<u32>, u32) -> u32,
    E: Fn(u64, u32, u32) -> u32,
    X: Fn(&Vec<u32>) -> u32,
    GM: Fn(&Vec<u32>) -> G,
    EM: Fn(&RabitqCode) -> E,
    XM: Fn(&Vec<u32>) -> X,
>(
    fetch: F,
    rotate: R,
    corrections: C,
    routing: GM,
    estimating: EM,
    measuring: XM,
    m: MappedModel,
    query: Vec<u32>,
    k: int,
    nprobe: int,
    results: Seq<(u64, u32)>,
) -> bool {
    if m.header.num_vectors == 0 || k == 0 {
        results.len() == 0
    } else {
        exists|code: RabitqCode, route: G, estimate: E, exact: X| #[trigger]
            mapped_prepared(
                rotate,
                corrections,
                routing,
                estimating,
                measuring,
                m,
                query,
                code,
                route,
                estimate,
                exact,
            ) && mapped_outcome(fetch, route, estimate, exact, m, code, k, nprobe, results)
    }
}

impl MmapIndex {
    /// The vector under an id; nothing where there is none or it cannot be read.
    pub fn raw_vector<F: Fn(u64, usize, usize) -> Option<Vec<u8>>>(&self, id: u64, fetch: &F) -> (v:
        Option<Vec<u32>>)
        requires
            self.wf(),
            chunked_storage::serves_some(*fetch, self@.layout),
        ensures
            vector_read(*fetch, self@, id, v),
            v matches Some(v) ==> v@.len() == self@.header.dim,
    {
        if id >= self.header.num_vectors {
            return None;
        }
        let dim: u128 = self.header.dim as u128;
        assert(id as u128 * dim * 4 <= 0xFFFF_FFFF_FFFF_FFFF * 0x4_0000_0000) by (nonlinear_arith)
            requires
                id <= 0xFFFF_FFFF_FFFF_FFFF,
                dim <= 0xFFFF_FFFF,
        ;
        assert(id as u128 * dim <= id as u128 * dim * 4) by (nonlinear_arith)
            requires
                dim >= 0,
        ;
        let offset: u128 = self.header.raw_offset as u128 + id as u128 * dim * 4;
        if offset > u64::MAX as u128 {
            return None;
        }
        let len: u64 = self.header.dim as u64 * 4;
        match self.layout.read(offset as u64, len, fetch) {
            Ok(buf) => {
                let v = blocks::read_words(buf.as_slice());
                Some(v)
            },
            Err(_) => None,
        }
    }

    /// Reads the entries of a partition; none where they cannot be read.
    fn read_partition<F: Fn(u64, usize, usize) -> Option<Vec<u8>>>(
        &self,
        pid: usize,
        fetch: &F,
    ) -> (entries: Vec<(u64, RabitqCode)>)
        requires
            self.wf(),
            chunked_storage::serves_some(*fetch, self@.layout),
            pid < self@.header.num_partitions,
        ensures
            entries_read(*fetch, self@, pid as int, index_ivf_rq::entry_views(entries@)),
            forall|i: int|
                0 <= i < entries@.len() ==> (#[trigger] entries@[i]).1.bits@.len() == self@.header.dim
                    / 8,
    {
        let meta = self.partition_metas[pid];
        let ghost m = self@;
        assert(m.metas[pid as int] == meta@);
        assert(fits(m.metas[pid as int], m.header.dim));
        assert forall|f: Seq<u8>| m.describes(f) implies #[trigger] mapped_meta(f, pid as int)
            == meta@ by {
            assert(m.metas == Seq::new(m.header.num_partitions, |p: int| mapped_meta(f, p)));
        }
        if meta.count == 0 {
            let none: Vec<(u64, RabitqCode)> = Vec::new();
            assert forall|f: Seq<u8>| m.describes(f) implies #[trigger] mapped_entries(
                f,
                pid as int,
            ).len() == 0 by {
                assert(mapped_meta(f, pid as int) == meta@);
            }
            assert(index_ivf_rq::entry_views(none@) =~= Seq::empty());
            assert forall|f: Seq<u8>| m.describes(f) implies Seq::<(u64, rabitq::Code)>::empty()
                == #[trigger] mapped_entries(f, pid as int) by {
                assert(mapped_entries(f, pid as int) =~= Seq::empty());
            }
            return none;
        }
        match self.layout.read(meta.offset, meta.len, fetch) {
            Ok(part) => {
                assert(part@.len() == meta.len);
                assert(meta.count <= meta.count * storage::entry_size(m.header.dim))
                    by (nonlinear_arith)
                    requires
                        storage::entry_size(m.header.dim) >= 1,
                ;
                assert(part@.len() == part.len());
                let entries = storage::read_entries(
                    part.as_slice(),
                    self.header.dim as usize,
                    meta.count as usize,
                );
                let ghost views = index_ivf_rq::entry_views(entries@);
                assert(views == storage::entries_of(part@, m.header.dim, meta@.count));
                assert(views.len() == meta.count);
                assert forall|i: int| 0 <= i < entries@.len() implies (
                #[trigger] entries@[i]).1.bits@.len() == m.header.dim / 8 by {
                    let size = storage::entry_size(m.header.dim) as int;
                    assert(views[i].1.bits == entries@[i].1.bits@);
                    assert(views[i] == storage::entry_at(part@, m.header.dim, i * size));
                    assert(0 <= i * size && i * size + size <= meta.count * size)
                        by (nonlinear_arith)
                        requires
                            0 <= i < meta.count,
                            size >= 0,
                    ;
                }
                assert forall|f: Seq<u8>|
                    #[trigger] chunked_storage::serves(*fetch, f, m.layout) && m.describes(
                        f,
                    ) implies views == mapped_entries(f, pid as int) by {
                    assert(mapped_meta(f, pid as int) == meta@);
                    assert(part_at(f, (meta@.offset, meta@.len)) == Some(part@));
                }
                entries
            },
            Err(_) => {
                let none: Vec<(u64, RabitqCode)> = Vec::new();
                assert(index_ivf_rq::entry_views(none@) =~= Seq::empty());
                assert forall|f: Seq<u8>|
                    #[trigger] chunked_storage::serves(*fetch, f, m.layout) && m.describes(
                        f,
                    ) implies Seq::<(u64, rabitq::Code)>::empty() == mapped_entries(f, pid as int)
                    || can_fail_in(*fetch, m.layout, (meta@.offset, meta@.len)) by {
                    assert(mapped_meta(f, pid as int) == meta@);
                }
                none
            },
        }
    }

    /// The candidates of a partition, with estimated distances.
    pub fn scan_partition<
        F: Fn(u64, usize, usize) -> Option<Vec<u8>>,
        E: Fn(u64, u32, u32) -> u32,
    >(&self, pid: usize, query: &RabitqCode, fetch: &F, estimate: &E) -> (candidates: Vec<(u64, u32)>)
        requires
            self.wf(),
            chunked_storage::serves_some(*fetch, self@.layout),
            pid < self@.header.num_partitions,
            query.bits@.len() == self@.header.dim / 8,
            search::estimates_numbers(*estimate),
        ensures
            exists|entries: Seq<(u64, rabitq::Code)>| #[trigger]
                scanned(*fetch, *estimate, self@, *query, pid as int, entries, candidates@),
            ordering::comparable(candidates@),
    {
        let ghost m = self@;
        let ghost code = QueryCode::Signs(*query);
        let ghost dim = m.header.dim as int;
        let entries = self.read_partition(pid, fetch);
        let ghost views = index_ivf_rq::entry_views(entries@);
        let mut candidates: Vec<(u64, u32)> = Vec::with_capacity(entries.len());
        let mut i: usize = 0;
        while i < entries.len()
            invariant
                i <= entries@.len(),
                candidates@.len() == i,
                self.wf(),
                m == self@,
                dim == m.header.dim,
                code == QueryCode::Signs(*query),
                query.bits@.len() == dim / 8,
                views == index_ivf_rq::entry_views(entries@),
                forall|j: int|
                    0 <= j < entries@.len() ==> (#[trigger] entries@[j]).1.bits@.len() == dim / 8,
                search::estimates_numbers(*estimate),
                forall|j: int|
                    0 <= j < i ==> search::estimate_of(
                        *estimate,
                        code,
                        dim,
                        views[j],
                        #[trigger] candidates@[j],
                    ),
                ordering::comparable(candidates@),
            decreases entries@.len() - i,
        {
            let id: u64 = entries[i].0;
            assert(entries@[i as int].1.bits@.len() == dim / 8);
            let d: u32 = self.quantizer.estimate_distance_sq_raw(
                query,
                entries[i].1.bits.as_slice(),
                entries[i].1.alpha,
                entries[i].1.beta,
                estimate,
            );
            assert(views[i as int] == (id, entries@[i as int].1@));
            assert(search::estimate_of(*estimate, code, dim, views[i as int], (id, d)));
            candidates.push((id, d));
            i += 1;
        }
        assert(scanned(*fetch, *estimate, m, *query, pid as int, views, candidates@));
        candidates
    }

    /// The distances of all partitions from the query.
    fn route_all<G: Fn(&Vec<u32>, u32) -> u32>(&self, route: &G) -> (routed: Vec<(usize, u32)>)
        requires
            self.wf(),
            search::routes_numbers(*route, self@.header.dim as int),
        ensures
            all_routed(*route, self@, routed@),
            ordering::comparable(routed@),
    {
        let ghost m = self@;
        let mut routed: Vec<(usize, u32)> = Vec::with_capacity(self.rotated_centroids.len());
        let mut p: usize = 0;
        while p < self.rotated_centroids.len()
            invariant
                p <= m.rotated_centroids.len(),
                m == self@,
                m.wf(),
                routed@.len() == p,
                search::routes_numbers(*route, self@.header.dim as int),
                forall|i: int|
                    0 <= i < p ==> {
                        &&& (#[trigger] routed@[i]).0 == i
                        &&& call_ensures(
                            *route,
                            (&m.rotated_centroids[i], m.norms[i]),
                            routed@[i].1,
                        )
                    },
                ordering::comparable(routed@),
            decreases m.rotated_centroids.len() - p,
        {
            let d: u32 = route(&self.rotated_centroids[p], self.rotated_centroid_norms_sq[p]);
            routed.push((p, d));
            p += 1;
        }
        routed
    }

    /// Measures candidates by their vectors.
    fn measure<F: Fn(u64, usize, usize) -> Option<Vec<u8>>, X: Fn(&Vec<u32>) -> u32>(
        &self,
        before: &Vec<(u64, u32)>,
        fetch: &F,
        exact: &X,
    ) -> (after: Vec<(u64, u32)>)
        requires
            self.wf(),
            chunked_storage::serves_some(*fetch, self@.layout),
            search::measures_numbers(*exact, self@.header.dim as int),
        ensures
            measured(*fetch, *exact, self@, before@, after@),
            ordering::comparable(after@),
    {
        let mut after: Vec<(u64, u32)> = Vec::with_capacity(before.len());
        let mut i: usize = 0;
        while i < before.len()
            invariant
                i <= before@.len(),
                after@.len() == i,
                self.wf(),
                chunked_storage::serves_some(*fetch, self@.layout),
                search::measures_numbers(*exact, self@.header.dim as int),
                forall|j: int|
                    0 <= j < i ==> measured_one(
                        *fetch,
                        *exact,
                        self@,
                        before@[j],
                        #[trigger] after@[j],
                    ),
                ordering::comparable(after@),
            decreases before@.len() - i,
        {
            let id: u64 = before[i].0;
            let v = self.raw_vector(id, fetch);
            let d: u32 = match &v {
                Some(v) => exact(v),
                None => ieee::SINGLE_MAX,
            };
            assert(!ieee::single_nan(ieee::SINGLE_MAX));
            assert(!ieee::single_nan(d));
            assert(measured_one(*fetch, *exact, self@, before@[i as int], (id, d))) by {
                assert(vector_read(*fetch, self@, id, v));
            }
            after.push((id, d));
            i += 1;
        }
        after
    }

    /// The candidates of some partitions.
    fn scan_all<
        F: Fn(u64, usize, usize) -> Option<Vec<u8>>,
        E: Fn(u64, u32, u32) -> u32,
    >(&self, pids: &Vec<usize>, query: &RabitqCode, fetch: &F, estimate: &E) -> (r: (
        Vec<(u64, u32)>,
        Ghost<Seq<Seq<(u64, rabitq::Code)>>>,
    ))
        requires
            self.wf(),
            chunked_storage::serves_some(*fetch, self@.layout),
            forall|i: int|
                0 <= i < pids@.len() ==> #[trigger] pids@[i] < self@.header.num_partitions,
            query.bits@.len() == self@.header.dim / 8,
            search::estimates_numbers(*estimate),
        ensures
            r.1@.len() == pids@.len(),
            forall|i: int|
                0 <= i < pids@.len() ==> entries_read(
                    *fetch,
                    self@,
                    pids@[i] as int,
                    #[trigger] r.1@[i],
                ),
            search::estimated(
                *estimate,
                QueryCode::Signs(*query),
                self@.header.dim as int,
                r.1@.flatten_alt(),
                r.0@,
            ),
            ordering::comparable(r.0@),
    {
        let ghost m = self@;
        let ghost code = QueryCode::Signs(*query);
        let ghost dim = m.header.dim as int;
        let ghost mut parts: Seq<Seq<(u64, rabitq::Code)>> = Seq::empty();
        let mut candidates: Vec<(u64, u32)> = Vec::new();
        let mut i: usize = 0;
        while i < pids.len()
            invariant
                i <= pids@.len(),
                m == self@,
                self.wf(),
                dim == m.header.dim,
                code == QueryCode::Signs(*query),
                chunked_storage::serves_some(*fetch, m.layout),
                forall|i: int|
                    0 <= i < pids@.len() ==> #[trigger] pids@[i] < m.header.num_partitions,
                query.bits@.len() == dim / 8,
                search::estimates_numbers(*estimate),
                parts.len() == i,
                forall|j: int|
                    0 <= j < i ==> entries_read(*fetch, m, pids@[j] as int, #[trigger] parts[j]),
                search::estimated(*estimate, code, dim, parts.flatten_alt(), candidates@),
                ordering::comparable(candidates@),
            decreases pids@.len() - i,
        {
            let mut part = self.scan_partition(pids[i], query, fetch, estimate);
            let ghost before = candidates@;
            let ghost more = part@;
            candidates.append(&mut part);
            proof {
                let entries = choose|entries: Seq<(u64, rabitq::Code)>| #[trigger]
                    scanned(*fetch, *estimate, m, *query, pids@[i as int] as int, entries, more);
                let so_far = parts.flatten_alt();
                let longer = parts.push(entries);
                assert(longer.drop_last() =~= parts);
                assert(longer.flatten_alt() == so_far + entries);
                assert(candidates@ =~= before + more);
                assert forall|j: int| 0 <= j < (so_far + entries).len() implies search::estimate_of(
                    *estimate,
                    code,
                    dim,
                    (so_far + entries)[j],
                    #[trigger] candidates@[j],
                ) by {
                    if j < so_far.len() {
                        assert(candidates@[j] == before[j]);
                    } else {
                        assert(candidates@[j] == more[j - so_far.len()]);
                    }
                }
                parts = longer;
            }
            i += 1;
        }
        (candidates, Ghost(parts))
    }

    /// Searches the index in its file: the nearest partitions are read, and the best candidates are
    /// ranked by their vectors.
    ///
    /// `route` gives the distance from the query to a rotated centroid, `estimate` that to a vector
    /// from the Hamming distance of the signs, and `exact` that to a vector.
    pub fn search<
        F: Fn(u64, usize, usize) -> Option<Vec<u8>>,
        G: Fn(&Vec<u32>, u32) -> u32,
        E: Fn(u64, u32, u32) -> u32,
        X: Fn(&Vec<u32>) -> u32,
    >(
        &self,
        query: &RabitqCode,
        k: usize,
        nprobe: usize,
        fetch: &F,
        route: &G,
        estimate: &E,
        exact: &X,
    ) -> (results: Vec<(u64, u32)>)
        requires
            self.wf(),
            chunked_storage::serves_some(*fetch, self@.layout),
            query.bits@.len() == self@.header.dim / 8,
            search::routes_numbers(*route, self@.header.dim as int),
            search::estimates_numbers(*estimate),
            search::measures_numbers(*exact, self@.header.dim as int),
        ensures
            mapped_outcome(
                *fetch,
                *route,
                *estimate,
                *exact,
                self@,
                *query,
                k as int,
                nprobe as int,
                results@,
            ),
    {
        if self.is_empty() || k == 0 {
            return Vec::new();
        }
        let ghost m = self@;
        let count: usize = self.num_partitions();
        let n: usize = search::probe_count(nprobe, count);
        let routed = self.route_all(route);
        let sorted = ordering::sort_by_distance(&routed);
        let kept = search::keep_first(sorted, n);
        let pids = search::places_of(&kept);
        proof {
            assert(routed@.len() == routed.len());
            ordering::by_distance_places(routed@);
            assert forall|j: int| 0 <= j < pids@.len() implies #[trigger] pids@[j]
                < m.header.num_partitions by {
                assert(pids@[j] == ordering::by_distance(routed@)[j].0);
                let q = ordering::stable_order_of(ordering::distance_keys(routed@))[j] as int;
                assert(ordering::by_distance(routed@)[j] == routed@[q]);
            }
        }
        let (candidates, Ghost(parts)) = self.scan_all(&pids, query, fetch, estimate);
        let order = ordering::sort_by_distance(&candidates);
        let found: usize = candidates.len();
        let wanted: usize = if n == count || k > found / 10 {
            found
        } else {
            10 * k
        };
        assert(wanted == measure_count(k as int, nprobe as int, count as int, found as int));
        let head = search::keep_first(order, wanted);
        let ranked = self.measure(&head, fetch, exact);
        let best = ordering::sort_by_distance(&ranked);
        let results = search::keep_first(best, k);
        assert(mapped_searched(
            *fetch,
            *route,
            *estimate,
            *exact,
            m,
            *query,
            k as int,
            nprobe as int,
            routed@,
            parts,
            candidates@,
            ranked@,
            results@,
        ));
        results
    }

    /// Searches the index in its file for a query.
    ///
    /// `rotate` and `corrections` are the arithmetic of codes. `routing` makes `route` of `search` of
    /// the rotated query, `estimating` makes `estimate` of its code, and `measuring` makes `exact` of
    /// the query.
    pub fn search_query<
        F: Fn(u64, usize, usize) -> Option<Vec<u8>>,
        R: Fn(&Vec<u32>, &Vec<u32>) -> Vec<u32>,
        C: Fn(&Vec<u32>, u32) -> (u32, u32),
        G: Fn(&Vec<u32>, u32) -> u32,
        E: Fn(u64, u32, u32) -> u32,
        X: Fn(&Vec<u32>) -> u32,
        GM: Fn(&Vec<u32>) -> G,
        EM: Fn(&RabitqCode) -> E,
        XM: Fn(&Vec<u32>) -> X,
    >(
        &self,
        query: &Vec<u32>,
        k: usize,
        nprobe: usize,
        fetch: &F,
        rotate: &R,
        corrections: &C,
        routing: &GM,
        estimating: &EM,
        measuring: &XM,
    ) -> (results: Vec<(u64, u32)>)
        requires
            self.wf(),
            self@.header.num_vectors == 0 || k == 0 || query@.len() == self@.header.dim,
            chunked_storage::serves_some(*fetch, self@.layout),
            rabitq::keeps_dim(*rotate),
            forall|v: Vec<u32>, e: u32| #[trigger] call_requires(*corrections, (&v, e)),
            search::gives_routes(*routing, self@.header.dim as int),
            gives_code_estimates(*estimating),
            search::gives_measures(*measuring, self@.header.dim as int),
        ensures
            mapped_query_outcome(
                *fetch,
                *rotate,
                *corrections,
                *routing,
                *estimating,
                *measuring,
                self@,
                *query,
                k as int,
                nprobe as int,
                results@,
            ),
    {
        if self.is_empty() || k == 0 {
            return Vec::new();
        }
        let rotated = self.quantizer.rotate_vector(query, rotate);
        let code = self.quantizer.encode_query_from_rotated(&rotated, corrections);
        let route = routing(&rotated);
        let estimate = estimating(&code);
        let exact = measuring(query);
        let results = self.search(&code, k, nprobe, fetch, &route, &estimate, &exact);
        assert(mapped_prepared(
            *rotate,
            *corrections,
            *routing,
            *estimating,
            *measuring,
            self@,
            *query,
            code,
            route,
            estimate,
            exact,
        ));
        results
    }
}

} // verus!
