//! Index files: how an index is laid out in bytes, and how it is read back.
//!
//! A file holds, one after another, the header, the rotation, the centroids, the entries of each
//! partition, the place of each partition, the vectors, the payloads as JSON text, and the
//! manifest. The checksum in the manifest covers everything behind the header, with its own bytes
//! taken as zero.

use crate::blocks;
use crate::checksum;
use crate::index_ivf_rq::{IndexModel, IvfRabitqIndex, Payload, RabitqCode, RabitqConfig, RabitqQuantizer};
use crate::index_ivf_rq;
use crate::little_endian;
use crate::payload;
use crate::rabitq;
use crate::storage_format::{Header, HeaderModel, Manifest, MetaModel, PartitionMeta};
use crate::storage_format;
use crate::storage_laws;
pub use crate::memory::available_physical_memory;
pub use crate::storage_save::save_index;
use vstd::prelude::*;
use vstd::slice::slice_subrange;

verus! {

/// Why an index file cannot be written or read.
#[derive(Debug, Clone, Copy, PartialEq, Eq, Structural)]
pub enum StorageError {
    /// The file is empty.
    Empty,
    /// The file is shorter than a header.
    TooShort,
    /// The header cannot be read.
    BadHeader,
    /// The file does not begin with the magic bytes.
    BadMagic,
    /// The format has another version.
    UnsupportedVersion,
    /// A part reaches beyond the end of the file.
    Truncated,
    /// The parts do not fit together.
    Malformed,
    /// The payloads are not JSON text.
    BadPayload,
    /// The checksum is not that of the contents.
    ChecksumMismatch,
}

/// The message of an error.
pub open spec fn error_text(e: StorageError) -> Seq<char> {
    match e {
        StorageError::Empty => "empty index file"@,
        StorageError::TooShort => "file too short for header"@,
        StorageError::BadHeader => "bad header"@,
        StorageError::BadMagic => "bad magic"@,
        StorageError::UnsupportedVersion => "unsupported version"@,
        StorageError::Truncated => "failed to fill whole buffer"@,
        StorageError::Malformed => "malformed index file"@,
        StorageError::BadPayload => "bad payload"@,
        StorageError::ChecksumMismatch => "checksum mismatch"@,
    }
}

impl StorageError {
    /// The message of the error.
    pub fn message(self) -> (m: String)
        ensures
            m@ == error_text(self),
    {
        match self {
            StorageError::Empty => "empty index file".to_owned(),
            StorageError::TooShort => "file too short for header".to_owned(),
            StorageError::BadHeader => "bad header".to_owned(),
            StorageError::BadMagic => "bad magic".to_owned(),
            StorageError::UnsupportedVersion => "unsupported version".to_owned(),
            StorageError::Truncated => "failed to fill whole buffer".to_owned(),
            StorageError::Malformed => "malformed index file".to_owned(),
            StorageError::BadPayload => "bad payload".to_owned(),
            StorageError::ChecksumMismatch => "checksum mismatch".to_owned(),
        }
    }
}

/// A part of a file, if the file reaches that far; an empty part is anywhere.
pub open spec fn section(b: Seq<u8>, at: (nat, nat)) -> Option<Seq<u8>> {
    if at.1 == 0 {
        Some(Seq::empty())
    } else if at.0 + at.1 <= b.len() {
        Some(b.subrange(at.0 as int, (at.0 + at.1) as int))
    } else {
        None
    }
}

/// What is noted of a partition.
pub open spec fn partition_meta(b: Seq<u8>, h: HeaderModel, p: int) -> MetaModel {
    storage_format::meta_at(section(b, h.partition_meta)->0, 24 * p)
}

/// The bytes of a partition, if the file reaches that far.
pub open spec fn partition_section(b: Seq<u8>, h: HeaderModel, p: int) -> Option<Seq<u8>> {
    section(b, (partition_meta(b, h, p).offset, partition_meta(b, h, p).len))
}

/// There is a note on every partition.
pub open spec fn metas_complete(h: HeaderModel) -> bool {
    24 * h.num_partitions <= h.partition_meta.1
}

/// Every part of the file is within it.
pub open spec fn present(b: Seq<u8>, h: HeaderModel) -> bool {
    &&& section(b, h.rotation) is Some
    &&& section(b, h.centroids) is Some
    &&& section(b, h.partition_meta) is Some
    &&& section(b, h.raw) is Some
    &&& section(b, h.payload) is Some
    &&& metas_complete(h) ==> forall|p: int|
        0 <= p < h.num_partitions ==> #[trigger] partition_section(b, h, p) is Some
}

/// How many bytes an entry takes.
pub open spec fn entry_size(dim: nat) -> nat {
    16 + dim / 8
}

/// Every part is as long as what it has to hold.
pub open spec fn readable(b: Seq<u8>, h: HeaderModel) -> bool {
    &&& h.rotation.1 % 4 == 0
    &&& h.centroids.1 % 4 == 0
    &&& h.num_partitions * h.dim <= h.centroids.1 / 4
    &&& metas_complete(h)
    &&& forall|p: int| 0 <= p < h.num_partitions ==> #[trigger] entries_fit(b, h, p)
    &&& h.raw.1 % 4 == 0
    &&& h.num_vectors * h.dim <= h.raw.1 / 4
    &&& h.num_vectors <= usize::MAX
}

/// A partition is as long as its entries.
pub open spec fn entries_fit(b: Seq<u8>, h: HeaderModel, p: int) -> bool {
    partition_meta(b, h, p).count * entry_size(h.dim) <= partition_meta(b, h, p).len
}

/// Row `i` of numbers in rows of `dim`.
pub open spec fn row_of(words: Seq<u32>, dim: int, i: int) -> Seq<u32> {
    words.subrange(i * dim, i * dim + dim)
}

/// The first `n` rows of numbers in rows of `dim`.
pub open spec fn rows_of(words: Seq<u32>, dim: int, n: nat) -> Seq<Seq<u32>> {
    Seq::new(n, |i: int| row_of(words, dim, i))
}

/// The entry that bytes at `at` stand for.
pub open spec fn entry_at(b: Seq<u8>, dim: nat, at: int) -> (u64, rabitq::Code) {
    let bits = (dim / 8) as int;
    (
        storage_format::long_at(b, at) as u64,
        rabitq::Code {
            bits: b.subrange(at + 8, at + 8 + bits),
            alpha: storage_format::word_at(b, at + 8 + bits) as u32,
            beta: storage_format::word_at(b, at + 12 + bits) as u32,
        },
    )
}

/// The first `n` entries that bytes stand for.
pub open spec fn entries_of(b: Seq<u8>, dim: nat, n: nat) -> Seq<(u64, rabitq::Code)> {
    Seq::new(n, |i: int| entry_at(b, dim, i * entry_size(dim)))
}

/// The parts of an index as they are stored.
#[verifier::ext_equal]
pub struct PartsModel {
    pub dim: int,
    pub rotation: Seq<u32>,
    pub centroids: Seq<Seq<u32>>,
    pub partitions: Seq<Seq<(u64, rabitq::Code)>>,
    pub raw: Seq<Seq<u32>>,
    pub payloads: Seq<Payload>,
    pub next_id: u64,
}

/// The payloads that a file holds, if they can be read.
pub open spec fn stored_payloads(b: Seq<u8>, h: HeaderModel) -> Option<Seq<Payload>> {
    if h.payload.1 == 0 {
        Some(Seq::empty())
    } else {
        payload::payloads_of_json(section(b, h.payload)->0)
    }
}

/// Every part of a file is where it is looked for, and the checksum holds.
pub open spec fn sound(b: Seq<u8>) -> bool {
    &&& b.len() >= 148
    &&& header_fault(b) is None
    &&& checksum_fault(b, CHECKSUM_END as int) is None
    &&& present(b, storage_format::header_of(b))
    &&& readable(b, storage_format::header_of(b))
}

/// Payloads of scalars that were written to a file are read from it.
pub open spec fn payloads_kept(b: Seq<u8>) -> bool {
    let h = storage_format::header_of(b);
    forall|written: Seq<Payload>|
        payload::scalars(written) && h.payload.1 > 0 && section(b, h.payload)->0
            == #[trigger] payload::payloads_json(written) ==> stored_payloads(b, h) is Some
            && payload::read_back(stored_payloads(b, h)->0, written)
}

/// The parts of an index that a file holds.
pub open spec fn parts_of(b: Seq<u8>, h: HeaderModel) -> PartsModel {
    PartsModel {
        dim: h.dim as int,
        rotation: blocks::bytes_to_words(section(b, h.rotation)->0),
        centroids: rows_of(
            blocks::bytes_to_words(section(b, h.centroids)->0),
            h.dim as int,
            h.num_partitions,
        ),
        partitions: Seq::new(
            h.num_partitions,
            |p: int|
                entries_of(
                    partition_section(b, h, p)->0,
                    h.dim,
                    partition_meta(b, h, p).count,
                ),
        ),
        raw: rows_of(
            blocks::bytes_to_words(section(b, h.raw)->0),
            h.dim as int,
            h.num_vectors,
        ),
        payloads: stored_payloads(b, h)->0,
        next_id: h.next_id as u64,
    }
}

/// The parts make an index: the dimension is a multiple of 64, the rotation is square, and every
/// entry has a vector.
pub open spec fn consistent(parts: PartsModel) -> bool {
    &&& parts.dim % 64 == 0
    &&& parts.rotation.len() == parts.dim * parts.dim
    &&& forall|p: int| 0 <= p < parts.partitions.len() ==> #[trigger] ids_below(
        parts.partitions[p],
        parts.raw.len(),
    )
}

/// All ids of entries are less than `n`.
pub open spec fn ids_below(entries: Seq<(u64, rabitq::Code)>, n: nat) -> bool {
    forall|i: int| 0 <= i < entries.len() ==> (#[trigger] entries[i]).0 < n
}

/// The contents behind the header with the checksum taken as zero.
pub open spec fn checked_contents(b: Seq<u8>, manifest: int) -> Seq<u8> {
    Seq::new(
        (b.len() - 148) as nat,
        |i: int|
            if manifest + 8 <= i + 148 < manifest + 12 {
                0u8
            } else {
                b[i + 148]
            },
    )
}

/// The checksum in the manifest is that of the contents.
pub open spec fn checksum_holds(b: Seq<u8>, manifest: int) -> bool {
    checksum::crc_of(checked_contents(b, manifest)) == storage_format::word_at(b, manifest + 8)
}

/// What is wrong with the header of a file.
pub open spec fn header_fault(b: Seq<u8>) -> Option<StorageError> {
    let h = storage_format::header_of(b);
    if h.magic != storage_format::MAGIC@ {
        Some(StorageError::BadMagic)
    } else if h.version != storage_format::FORMAT_VERSION {
        Some(StorageError::UnsupportedVersion)
    } else {
        None
    }
}

/// Where the checksum ends in a manifest.
pub const CHECKSUM_END: usize = 12;

/// Where a manifest ends.
pub const MANIFEST_END: usize = 16;

/// What is wrong with the checksum of a file of whose manifest `size` bytes are read.
pub open spec fn checksum_fault(b: Seq<u8>, size: int) -> Option<StorageError> {
    let at = storage_format::header_of(b).manifest.0 as int;
    if at < 148 {
        Some(StorageError::Malformed)
    } else if at + size > b.len() {
        Some(StorageError::Truncated)
    } else if !checksum_holds(b, at) {
        Some(StorageError::ChecksumMismatch)
    } else {
        None
    }
}

/// What is wrong with the parts of a file.
pub open spec fn parts_fault(b: Seq<u8>) -> Option<StorageError> {
    let h = storage_format::header_of(b);
    if !present(b, h) {
        Some(StorageError::Truncated)
    } else if !readable(b, h) {
        Some(StorageError::Malformed)
    } else if stored_payloads(b, h) is None {
        Some(StorageError::BadPayload)
    } else {
        None
    }
}

/// What is wrong with how the parts of a file fit together.
pub open spec fn fitting_fault(b: Seq<u8>) -> Option<StorageError> {
    if consistent(parts_of(b, storage_format::header_of(b))) {
        None
    } else {
        Some(StorageError::Malformed)
    }
}

/// The first fault of two.
pub open spec fn or_else(a: Option<StorageError>, b: Option<StorageError>) -> Option<StorageError> {
    if a is Some {
        a
    } else {
        b
    }
}

/// Why a file cannot be loaded part by part: the parts come first, the checksum after them.
pub open spec fn load_fault(b: Seq<u8>) -> Option<StorageError> {
    if b.len() < 148 {
        Some(StorageError::Truncated)
    } else {
        or_else(
            header_fault(b),
            or_else(parts_fault(b), or_else(checksum_fault(b, MANIFEST_END as int), fitting_fault(b))),
        )
    }
}

/// Why a mapped file cannot be loaded: the checksum comes first, and of the manifest only the bytes
/// up to its end are read.
pub open spec fn mapped_fault(b: Seq<u8>) -> Option<StorageError> {
    if b.len() == 0 {
        Some(StorageError::Empty)
    } else if b.len() < 148 {
        Some(StorageError::TooShort)
    } else {
        or_else(
            header_fault(b),
            or_else(checksum_fault(b, CHECKSUM_END as int), or_else(parts_fault(b), fitting_fault(b))),
        )
    }
}

/// The parts of an index.
pub struct IndexParts {
    pub dim: usize,
    pub rotation: Vec<u32>,
    pub centroids: Vec<Vec<u32>>,
    pub partitions: Vec<Vec<(u64, RabitqCode)>>,
    pub raw: Vec<Vec<u32>>,
    pub payloads: Vec<Payload>,
    pub next_id: u64,
}

/// The views of vectors.
pub open spec fn row_views(rows: Seq<Vec<u32>>) -> Seq<Seq<u32>> {
    Seq::new(rows.len(), |i: int| rows[i]@)
}

impl View for IndexParts {
    type V = PartsModel;

    open spec fn view(&self) -> PartsModel {
        PartsModel {
            dim: self.dim as int,
            rotation: self.rotation@,
            centroids: row_views(self.centroids@),
            partitions: index_ivf_rq::partition_views(self.partitions@),
            raw: row_views(self.raw@),
            payloads: self.payloads@,
            next_id: self.next_id,
        }
    }
}

/// A mapped file, from which parts are taken.
#[derive(Debug)]
pub struct MmapStorage<'a> {
    bytes: &'a [u8],
}

impl View for MmapStorage<'_> {
    type V = Seq<u8>;

    closed spec fn view(&self) -> Seq<u8> {
        self.bytes@
    }
}

impl<'a> MmapStorage<'a> {
    /// The storage over the bytes of a file; none where the file is empty.
    pub fn from_bytes(bytes: &'a [u8]) -> (r: Result<Self, StorageError>)
        ensures
            match r {
                Ok(s) => s@ == bytes@ && bytes@.len() > 0,
                Err(e) => e == StorageError::Empty && bytes@.len() == 0,
            },
    {
        if bytes.len() == 0 {
            Err(StorageError::Empty)
        } else {
            Ok(MmapStorage { bytes })
        }
    }

    /// All bytes.
    pub fn as_slice(&self) -> (s: &[u8])
        ensures
            s@ == self@,
    {
        self.bytes
    }

    /// The bytes from `offset` on, `len` of them.
    pub fn slice(&self, offset: u64, len: u64) -> (s: &[u8])
        requires
            offset + len <= self@.len(),
        ensures
            s@ == self@.subrange(offset as int, offset + len),
    {
        let n: usize = self.bytes.len();
        slice_subrange(self.bytes, offset as usize, (offset + len) as usize)
    }
}

/// Takes a part of a file.
fn take_section(b: &[u8], offset: u64, len: u64) -> (r: Option<&[u8]>)
    ensures
        match r {
            Some(s) => section(b@, (offset as nat, len as nat)) == Some(s@),
            None => section(b@, (offset as nat, len as nat)) is None,
        },
{
    let n: usize = b.len();
    if len == 0 {
        let s = slice_subrange(b, 0, 0);
        assert(s@ =~= Seq::empty());
        return Some(s);
    }
    if offset as u128 + len as u128 <= n as u128 {
        Some(slice_subrange(b, offset as usize, (offset + len) as usize))
    } else {
        None
    }
}

/// Cuts numbers into rows.
pub(crate) fn read_rows(words: &Vec<u32>, dim: usize, n: usize) -> (rows: Vec<Vec<u32>>)
    requires
        n * dim <= words@.len(),
    ensures
        row_views(rows@) == rows_of(words@, dim as int, n as nat),
{
    let mut rows: Vec<Vec<u32>> = Vec::new();
    let mut i: usize = 0;
    while i < n
        invariant
            i <= n,
            n * dim <= words@.len(),
            rows@.len() == i,
            forall|j: int| 0 <= j < i ==> (#[trigger] rows@[j])@ == row_of(words@, dim as int, j),
        decreases n - i,
    {
        assert(words@.len() == words.len());
        assert(i * dim + dim <= n * dim) by (nonlinear_arith)
            requires
                i < n,
        ;
        let start: usize = i * dim;
        let row = vstd::slice::slice_to_vec(
            slice_subrange(words.as_slice(), start, start + dim),
        );
        assert(row@ =~= row_of(words@, dim as int, i as int));
        rows.push(row);
        i += 1;
    }
    assert(row_views(rows@) =~= rows_of(words@, dim as int, n as nat));
    rows
}

/// Reads the entries of a partition.
pub fn read_entries(b: &[u8], dim: usize, n: usize) -> (entries: Vec<(u64, RabitqCode)>)
    requires
        n * entry_size(dim as nat) <= b@.len(),
    ensures
        index_ivf_rq::entry_views(entries@) == entries_of(b@, dim as nat, n as nat),
{
    let len: usize = b.len();
    let bits: usize = dim / 8;
    let ghost size = entry_size(dim as nat) as int;
    let mut entries: Vec<(u64, RabitqCode)> = Vec::new();
    let mut i: usize = 0;
    let mut at: usize = 0;
    while i < n
        invariant
            i <= n,
            len == b@.len(),
            bits == dim / 8,
            size == entry_size(dim as nat),
            n * size <= len,
            at == i * size,
            entries@.len() == i,
            index_ivf_rq::entry_views(entries@) == entries_of(b@, dim as nat, i as nat),
        decreases n - i,
    {
        assert(i * size + size <= n * size && (i + 1) * size == i * size + size)
            by (nonlinear_arith)
            requires
                i < n,
                size >= 0,
        ;
        let id: u64 = little_endian::read_u64(b, at);
        let code_bits = vstd::slice::slice_to_vec(slice_subrange(b, at + 8, at + 8 + bits));
        let alpha: u32 = little_endian::read_u32(b, at + 8 + bits);
        let beta: u32 = little_endian::read_u32(b, at + 12 + bits);
        let code = RabitqCode { bits: code_bits, alpha, beta };
        let ghost before = entries@;
        let ghost entry = (id, code@);
        entries.push((id, code));
        proof {
            assert(entry.1 =~= entry_at(b@, dim as nat, at as int).1);
            assert(index_ivf_rq::entry_views(entries@) =~= index_ivf_rq::entry_views(before).push(
                entry,
            ));
            assert(entries_of(b@, dim as nat, (i + 1) as nat) =~= entries_of(
                b@,
                dim as nat,
                i as nat,
            ).push(entry));
        }
        at = at + 16 + bits;
        i += 1;
    }
    entries
}

/// Whether the bytes begin with the magic and the version of the format.
fn check_header(header: &Header, b: &[u8]) -> (r: Option<StorageError>)
    requires
        b@.len() >= 148,
        header@ == storage_format::header_of(b@),
    ensures
        r == header_fault(b@),
{
    let mut i: usize = 0;
    let ghost magic = storage_format::MAGIC@;
    while i < 8
        invariant
            i <= 8,
            magic == storage_format::MAGIC@,
            b@.len() >= 148,
            header@ == storage_format::header_of(b@),
            forall|j: int| 0 <= j < i ==> header.magic@[j] == magic[j],
        decreases 8 - i,
    {
        let wanted: [u8; 8] = storage_format::MAGIC;
        if header.magic[i] != wanted[i] {
            assert(header@.magic[i as int] != magic[i as int]);
            return Some(StorageError::BadMagic);
        }
        i += 1;
    }
    assert(header@.magic =~= magic);
    if header.version != storage_format::FORMAT_VERSION {
        return Some(StorageError::UnsupportedVersion);
    }
    None
}

/// Whether the checksum of a file is that of its contents.
fn check_checksum(header: &Header, b: &[u8], size: usize) -> (r: Option<StorageError>)
    requires
        size >= CHECKSUM_END,
        b@.len() >= 148,
        header@ == storage_format::header_of(b@),
    ensures
        r == checksum_fault(b@, size as int),
{
    let n: usize = b.len();
    let at: u64 = header.manifest_offset;
    if at < 148 {
        return Some(StorageError::Malformed);
    }
    if at as u128 + size as u128 > n as u128 {
        return Some(StorageError::Truncated);
    }
    let start: usize = at as usize;
    let mut c: u32 = checksum::crc32_init();
    c = checksum::crc32_update(c, slice_subrange(b, 148, start + 8));
    let zeros: [u8; 4] = [0, 0, 0, 0];
    c = checksum::crc32_update(c, zeros.as_slice());
    c = checksum::crc32_update(c, slice_subrange(b, start + 12, n));
    let computed: u32 = checksum::crc32_finalize(c);
    proof {
        let front = b@.subrange(148, start + 8);
        let back = b@.subrange(start + 12, n as int);
        let i0 = 0xFFFF_FFFFu32;
        checksum::crc_bytes_concat(i0, front, zeros@);
        checksum::crc_bytes_concat(i0, front + zeros@, back);
        assert(front + zeros@ + back =~= checked_contents(b@, start as int));
    }
    let stored: u32 = little_endian::read_u32(b, start + 8);
    if computed != stored {
        return Some(StorageError::ChecksumMismatch);
    }
    None
}

/// Whether every partition of a file is within it, and whether all are as long as their entries.
fn check_partitions(header: &Header, b: &[u8], metas: &[u8]) -> (r: (bool, bool))
    requires
        b@.len() >= 148,
        section(b@, header@.partition_meta) == Some(metas@),
        metas_complete(header@),
    ensures
        r.0 == forall|p: int|
            0 <= p < header@.num_partitions ==> #[trigger] partition_section(b@, header@, p)
                is Some,
        r.1 == forall|p: int|
            0 <= p < header@.num_partitions ==> #[trigger] entries_fit(b@, header@, p),
{
    let ghost h = header@;
    let n: u32 = header.num_partitions;
    let size: u128 = 16 + (header.dim / 8) as u128;
    let len: usize = metas.len();
    let mut within: bool = true;
    let mut fitting: bool = true;
    let mut p: u32 = 0;
    while p < n
        invariant
            p <= n,
            n == h.num_partitions,
            h == header@,
            size == entry_size(h.dim),
            size < 0x1_0000_0000,
            len == metas@.len(),
            24 * n <= len,
            section(b@, h.partition_meta) == Some(metas@),
            within == forall|q: int|
                0 <= q < p ==> #[trigger] partition_section(b@, h, q) is Some,
            fitting == forall|q: int| 0 <= q < p ==> #[trigger] entries_fit(b@, h, q),
        decreases n - p,
    {
        let meta = read_meta(metas, p as usize);
        assert(meta@ == partition_meta(b@, h, p as int));
        let ghost was_within = within;
        let ghost was_fitting = fitting;
        if take_section(b, meta.offset, meta.len).is_none() {
            within = false;
        }
        assert(meta.count as u128 * size <= u128::MAX) by (nonlinear_arith)
            requires
                meta.count <= 0xFFFF_FFFF_FFFF_FFFF,
                size < 0x1_0000_0000,
        ;
        if meta.count as u128 * size > meta.len as u128 {
            fitting = false;
        }
        proof {
            if within {
                assert forall|q: int| 0 <= q < p + 1 implies #[trigger] partition_section(b@, h, q)
                    is Some by {}
            } else if was_within {
                assert(!(partition_section(b@, h, p as int) is Some));
            }
            if fitting {
                assert forall|q: int| 0 <= q < p + 1 implies #[trigger] entries_fit(b@, h, q) by {}
            } else if was_fitting {
                assert(!entries_fit(b@, h, p as int));
            }
        }
        p += 1;
    }
    (within, fitting)
}

/// What is noted of partition `p`.
pub(crate) fn read_meta(metas: &[u8], p: usize) -> (meta: PartitionMeta)
    requires
        24 * p + 24 <= metas@.len(),
    ensures
        meta@ == storage_format::meta_at(metas@, 24 * p),
{
    let len: usize = metas.len();
    PartitionMeta {
        offset: little_endian::read_u64(metas, 24 * p),
        len: little_endian::read_u64(metas, 24 * p + 8),
        count: little_endian::read_u64(metas, 24 * p + 16),
    }
}

/// Reads the entries of all partitions.
fn read_partitions(header: &Header, b: &[u8], metas: &[u8]) -> (partitions: Vec<
    Vec<(u64, RabitqCode)>,
>)
    requires
        section(b@, header@.partition_meta) == Some(metas@),
        present(b@, header@),
        readable(b@, header@),
    ensures
        index_ivf_rq::partition_views(partitions@) == parts_of(b@, header@).partitions,
{
    let ghost h = header@;
    let n: u32 = header.num_partitions;
    let len: usize = metas.len();
    let mut partitions: Vec<Vec<(u64, RabitqCode)>> = Vec::new();
    let mut p: u32 = 0;
    while p < n
        invariant
            p <= n,
            n == h.num_partitions,
            h == header@,
            len == metas@.len(),
            24 * n <= len,
            section(b@, h.partition_meta) == Some(metas@),
            present(b@, h),
            readable(b@, h),
            partitions@.len() == p,
            forall|q: int|
                0 <= q < p ==> index_ivf_rq::entry_views((#[trigger] partitions@[q])@)
                    == parts_of(b@, h).partitions[q],
        decreases n - p,
    {
        let meta = read_meta(metas, p as usize);
        assert(meta@ == partition_meta(b@, h, p as int));
        assert(partition_section(b@, h, p as int) is Some);
        assert(entries_fit(b@, h, p as int));
        let part = match take_section(b, meta.offset, meta.len) {
            Some(s) => s,
            None => {
                assert(false);
                b
            },
        };
        let part_len: usize = part.len();
        assert(part_len == meta.len);
        assert(meta.count <= meta.count * entry_size(h.dim)) by (nonlinear_arith)
            requires
                entry_size(h.dim) >= 1,
        ;
        let entries = read_entries(part, header.dim as usize, meta.count as usize);
        partitions.push(entries);
        p += 1;
    }
    assert(index_ivf_rq::partition_views(partitions@) =~= parts_of(b@, h).partitions);
    partitions
}

/// Reads the parts of a file.
fn read_parts(header: &Header, b: &[u8]) -> (r: Result<IndexParts, StorageError>)
    requires
        b@.len() >= 148,
        header@ == storage_format::header_of(b@),
    ensures
        match r {
            Ok(parts) => parts_fault(b@) is None && parts@ == parts_of(b@, header@),
            Err(e) => parts_fault(b@) == Some(e),
        },
        sound(b@) ==> payloads_kept(b@),
{
    let ghost h = header@;
    let rotation_bytes = take_section(b, header.rotation_offset, header.rotation_len);
    let centroid_bytes = take_section(b, header.centroids_offset, header.centroids_len);
    let meta_bytes = take_section(b, header.partition_meta_offset, header.partition_meta_len);
    let raw_bytes = take_section(b, header.raw_offset, header.raw_len);
    let payload_bytes = take_section(b, header.payload_offset, header.payload_len);
    match (rotation_bytes, centroid_bytes, meta_bytes, raw_bytes, payload_bytes) {
        (
            Some(rotation_bytes),
            Some(centroid_bytes),
            Some(meta_bytes),
            Some(raw_bytes),
            Some(payload_bytes),
        ) => {
            if 24 * header.num_partitions as u64 > header.partition_meta_len {
                return Err(StorageError::Malformed);
            }
            let (within, fitting) = check_partitions(header, b, meta_bytes);
            if !within {
                return Err(StorageError::Truncated);
            }
            let dim: u128 = header.dim as u128;
            assert(header.num_partitions as u128 * dim <= u128::MAX && header.num_vectors as u128
                * dim <= u128::MAX) by (nonlinear_arith)
                requires
                    header.num_partitions <= 0xFFFF_FFFF,
                    header.num_vectors <= 0xFFFF_FFFF_FFFF_FFFF,
                    dim <= 0xFFFF_FFFF,
            ;
            if !fitting || header.rotation_len % 4 != 0 || header.centroids_len % 4 != 0
                || header.raw_len % 4 != 0 || header.num_partitions as u128 * dim > (
            header.centroids_len / 4) as u128 || header.num_vectors as u128 * dim > (
            header.raw_len / 4) as u128 || header.num_vectors > usize::MAX as u64 {
                return Err(StorageError::Malformed);
            }
            let payloads: Vec<Payload> = if header.payload_len == 0 {
                Vec::new()
            } else {
                match payload::payloads_from_json(payload_bytes) {
                    Ok(payloads) => payloads,
                    Err(_) => {
                        return Err(StorageError::BadPayload);
                    },
                }
            };
            let rotation = blocks::read_words(rotation_bytes);
            let centroid_words = blocks::read_words(centroid_bytes);
            let centroids = read_rows(
                &centroid_words,
                header.dim as usize,
                header.num_partitions as usize,
            );
            let partitions = read_partitions(header, b, meta_bytes);
            let raw_words = blocks::read_words(raw_bytes);
            let raw = read_rows(&raw_words, header.dim as usize, header.num_vectors as usize);
            let parts = IndexParts {
                dim: header.dim as usize,
                rotation,
                centroids,
                partitions,
                raw,
                payloads,
                next_id: header.next_id,
            };
            assert(parts@ =~= parts_of(b@, h));
            Ok(parts)
        },
        _ => Err(StorageError::Truncated),
    }
}

/// Whether the parts make an index.
fn check_parts(parts: &IndexParts) -> (r: bool)
    ensures
        r == consistent(parts@),
{
    let dim: usize = parts.dim;
    if dim % 64 != 0 {
        return false;
    }
    let size: u128 = dim as u128;
    assert(size * size <= u128::MAX) by (nonlinear_arith)
        requires
            size <= 0xFFFF_FFFF_FFFF_FFFF,
    ;
    if parts.rotation.len() as u128 != size * size {
        return false;
    }
    let n: usize = parts.raw.len();
    let ghost views = parts@.partitions;
    let mut p: usize = 0;
    while p < parts.partitions.len()
        invariant
            p <= parts.partitions@.len(),
            n == parts@.raw.len(),
            views == parts@.partitions,
            forall|q: int| 0 <= q < p ==> #[trigger] ids_below(views[q], n as nat),
        decreases parts.partitions@.len() - p,
    {
        let entries = &parts.partitions[p];
        assert(views[p as int] == index_ivf_rq::entry_views(entries@));
        let mut i: usize = 0;
        while i < entries.len()
            invariant
                i <= entries@.len(),
                p < parts.partitions@.len(),
                views == parts@.partitions,
                n == parts@.raw.len(),
                views[p as int] == index_ivf_rq::entry_views(entries@),
                forall|j: int| 0 <= j < i ==> (#[trigger] views[p as int][j]).0 < n,
            decreases entries@.len() - i,
        {
            assert(views[p as int][i as int].0 == entries@[i as int].0);
            if entries[i].0 >= n as u64 {
                assert(!ids_below(views[p as int], n as nat));
                return false;
            }
            i += 1;
        }
        p += 1;
    }
    true
}

/// The parts of an index file. `checksum_first` tells whether the checksum is tested before the
/// parts are read or after.
fn decode(b: &[u8], checksum_first: bool) -> (r: Result<IndexParts, StorageError>)
    requires
        b@.len() >= 148,
    ensures
        ({
            let fault = if checksum_first {
                or_else(
                    header_fault(b@),
                    or_else(
                        checksum_fault(b@, CHECKSUM_END as int),
                        or_else(parts_fault(b@), fitting_fault(b@)),
                    ),
                )
            } else {
                or_else(
                    header_fault(b@),
                    or_else(
                        parts_fault(b@),
                        or_else(checksum_fault(b@, MANIFEST_END as int), fitting_fault(b@)),
                    ),
                )
            };
            match r {
                Ok(parts) => fault is None && parts@ == parts_of(
                    b@,
                    storage_format::header_of(b@),
                ) && consistent(parts@),
                Err(e) => fault == Some(e),
            }
        }),
        sound(b@) ==> payloads_kept(b@),
{
    let header = match Header::deserialize(b) {
        Some(h) => h,
        None => {
            return Err(StorageError::BadHeader);
        },
    };
    if let Some(e) = check_header(&header, b) {
        return Err(e);
    }
    if checksum_first {
        if let Some(e) = check_checksum(&header, b, CHECKSUM_END) {
            return Err(e);
        }
    }
    let parts = match read_parts(&header, b) {
        Ok(parts) => parts,
        Err(e) => {
            return Err(e);
        },
    };
    if !checksum_first {
        if let Some(e) = check_checksum(&header, b, MANIFEST_END) {
            return Err(e);
        }
    }
    if !check_parts(&parts) {
        return Err(StorageError::Malformed);
    }
    Ok(parts)
}

/// The parts that an index was assembled from.
pub open spec fn parts_in(m: IndexModel) -> PartsModel {
    PartsModel {
        dim: m.dim,
        rotation: m.rotation@,
        centroids: row_views(m.centroids),
        partitions: m.partitions,
        raw: row_views(m.raw),
        payloads: m.payloads,
        next_id: m.next_id,
    }
}

/// An index was assembled from the parts of a file.
pub open spec fn loaded<
    R: Fn(&Vec<u32>, &Vec<u32>) -> Vec<u32>,
    N: Fn(&Vec<u32>) -> u32,
    Q: Fn(u32, u32, u32) -> u8,
>(rotate: R, norm: N, quantize: Q, b: Seq<u8>, m: IndexModel) -> bool {
    &&& parts_in(m) == parts_of(b, storage_format::header_of(b))
    &&& m.wf()
    &&& m.config == rabitq::default_config(m.dim as usize)
    &&& m.coder == m.config
    &&& index_ivf_rq::assembled(
        rotate,
        norm,
        quantize,
        m.config,
        m.coder,
        m.rotation,
        m.centroids,
        m.partitions,
        m.raw,
        m.payloads,
        m.next_id,
        m,
    )
}

/// Makes an index of parts.
fn assemble<
    R: Fn(&Vec<u32>, &Vec<u32>) -> Vec<u32>,
    N: Fn(&Vec<u32>) -> u32,
    Q: Fn(u32, u32, u32) -> u8,
>(parts: IndexParts, rotate: &R, norm: &N, quantize: &Q, Ghost(b): Ghost<Seq<u8>>) -> (index:
    IvfRabitqIndex)
    requires
        parts@ == parts_of(b, storage_format::header_of(b)),
        consistent(parts@),
        rabitq::keeps_dim(*rotate),
        forall|v: Vec<u32>| #[trigger] call_requires(*norm, (&v,)),
        forall|v: u32, lo: u32, hi: u32| #[trigger] call_requires(*quantize, (v, lo, hi)),
        readable(b, storage_format::header_of(b)),
        present(b, storage_format::header_of(b)),
    ensures
        index.wf(),
        loaded(*rotate, *norm, *quantize, b, index@),
{
    let ghost model = parts@;
    let ghost h = storage_format::header_of(b);
    proof {
        let views = model.partitions;
        let n = h.num_partitions as int;
        assert(parts.centroids@.len() == model.centroids.len());
        assert forall|i: int| 0 <= i < parts.centroids@.len() implies (
        #[trigger] parts.centroids@[i])@.len() == model.dim by {
            assert(parts.centroids@[i]@ == model.centroids[i]);
            assert(model.centroids[i] == row_of(
                blocks::bytes_to_words(section(b, h.centroids)->0),
                h.dim as int,
                i,
            ));
            assert(0 <= i * h.dim && i * h.dim + h.dim <= h.num_partitions * h.dim)
                by (nonlinear_arith)
                requires
                    0 <= i < h.num_partitions,
            ;
        }
        assert(model.raw == row_views(parts.raw@));
        assert(model.raw == rows_of(
            blocks::bytes_to_words(section(b, h.raw)->0),
            h.dim as int,
            h.num_vectors,
        ));
        assert(parts.raw@.len() == h.num_vectors);
        assert forall|i: int| 0 <= i < parts.raw@.len() implies (#[trigger] parts.raw@[i])@.len()
            == model.dim by {
            assert(parts.raw@[i]@ == model.raw[i]);
            assert(model.raw[i] == row_of(
                blocks::bytes_to_words(section(b, h.raw)->0),
                h.dim as int,
                i,
            ));
            assert(0 <= i * h.dim && i * h.dim + h.dim <= h.num_vectors * h.dim)
                by (nonlinear_arith)
                requires
                    0 <= i < h.num_vectors,
            ;
        }
        assert forall|p: int, i: int|
            #![trigger views[p][i]]
            0 <= p < views.len() && 0 <= i < views[p].len() implies views[p][i].0
            < parts.raw@.len() && views[p][i].1.bits.len() == model.dim / 8 by {
            assert(ids_below(views[p], model.raw.len()));
            let part = partition_section(b, h, p)->0;
            let count = partition_meta(b, h, p).count;
            assert(partition_section(b, h, p) is Some);
            assert(views[p] == entries_of(part, h.dim, count));
            assert(entries_fit(b, h, p));
            let size = entry_size(h.dim);
            assert(0 <= i * size && i * size + size <= count * size) by (nonlinear_arith)
                requires
                    0 <= i < count,
                    size >= 0,
            ;
            assert(views[p][i] == entry_at(part, h.dim, i * size));
        }
    }
    let config = RabitqConfig::new(parts.dim);
    let quantizer = RabitqQuantizer::from_rotation(config, parts.rotation);
    let index = IvfRabitqIndex::from_parts(
        config,
        quantizer,
        parts.centroids,
        parts.partitions,
        parts.raw,
        parts.payloads,
        parts.next_id,
        rotate,
        norm,
        quantize,
    );
    assert(parts_in(index@) =~= model);
    index
}

/// Loads an index from the bytes of a file.
///
/// `rotate`, `norm` and `quantize` are the arithmetic of the parts that are not stored.
pub fn load_index<
    R: Fn(&Vec<u32>, &Vec<u32>) -> Vec<u32>,
    N: Fn(&Vec<u32>) -> u32,
    Q: Fn(u32, u32, u32) -> u8,
>(b: &[u8], rotate: &R, norm: &N, quantize: &Q) -> (r: Result<IvfRabitqIndex, StorageError>)
    requires
        rabitq::keeps_dim(*rotate),
        forall|v: Vec<u32>| #[trigger] call_requires(*norm, (&v,)),
        forall|v: u32, lo: u32, hi: u32| #[trigger] call_requires(*quantize, (v, lo, hi)),
    ensures
        match r {
            Ok(index) => {
                &&& load_fault(b@) is None
                &&& index.wf()
                &&& loaded(*rotate, *norm, *quantize, b@, index@)
            },
            Err(e) => load_fault(b@) == Some(e),
        },
        storage_laws::restored(b@, r),
{
    if b.len() < storage_format::HEADER_SIZE {
        proof {
            storage_laws::saved_is_restored(b@);
        }
        return Err(StorageError::Truncated);
    }
    let decoded = decode(b, false);
    proof {
        storage_laws::saved_is_restored(b@);
    }
    match decoded {
        Ok(parts) => Ok(assemble(parts, rotate, norm, quantize, Ghost(b@))),
        Err(e) => Err(e),
    }
}

/// Loads an index from a file in memory.
pub fn load_index_mmap<
    R: Fn(&Vec<u32>, &Vec<u32>) -> Vec<u32>,
    N: Fn(&Vec<u32>) -> u32,
    Q: Fn(u32, u32, u32) -> u8,
>(storage: &MmapStorage, rotate: &R, norm: &N, quantize: &Q) -> (r: Result<
    IvfRabitqIndex,
    StorageError,
>)
    requires
        rabitq::keeps_dim(*rotate),
        forall|v: Vec<u32>| #[trigger] call_requires(*norm, (&v,)),
        forall|v: u32, lo: u32, hi: u32| #[trigger] call_requires(*quantize, (v, lo, hi)),
        storage@.len() > 0,
    ensures
        match r {
            Ok(index) => {
                &&& mapped_fault(storage@) is None
                &&& index.wf()
                &&& loaded(*rotate, *norm, *quantize, storage@, index@)
            },
            Err(e) => mapped_fault(storage@) == Some(e),
        },
        storage_laws::restored(storage@, r),
{
    let b = storage.as_slice();
    if b.len() < storage_format::HEADER_SIZE {
        proof {
            storage_laws::saved_is_restored(b@);
        }
        return Err(StorageError::TooShort);
    }
    let decoded = decode(b, true);
    proof {
        storage_laws::saved_is_restored(b@);
    }
    match decoded {
        Ok(parts) => Ok(assemble(parts, rotate, norm, quantize, Ghost(b@))),
        Err(e) => Err(e),
    }
}

/// What loads part by part also loads mapped, and so does the reverse where the whole manifest is
/// in the file.
pub proof fn loaders_agree(b: Seq<u8>)
    ensures
        load_fault(b) is None ==> mapped_fault(b) is None,
        storage_format::header_of(b).manifest.0 + MANIFEST_END <= b.len() ==> (load_fault(b) is None
            <==> mapped_fault(b) is None),
{
}

} // verus!
