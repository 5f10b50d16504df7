//! The fixed parts of an index file: its header, the place of each partition, and the manifest.

use crate::blocks;
use crate::little_endian;
use vstd::prelude::*;

verus! {

/// The first bytes of an index file.
pub const MAGIC: [u8; 8] = [0x56, 0x44, 0x42, 0x52, 0x51, 0x49, 0x44, 0x58];

/// The version of the format.
pub const FORMAT_VERSION: u32 = 1;

/// The size of the header in bytes.
pub const HEADER_SIZE: usize = 148;

/// The size of what is noted of a partition in bytes.
pub const META_SIZE: usize = 24;

/// The size of the manifest in bytes.
pub const MANIFEST_SIZE: usize = 16;

/// The header of an index file: what it holds, and the offset and length of each part.
#[derive(Debug, Clone, Copy)]
pub struct Header {
    pub magic: [u8; 8],
    pub version: u32,
    pub dim: u32,
    pub num_partitions: u32,
    pub num_vectors: u64,
    pub next_id: u64,
    pub rotation_offset: u64,
    pub rotation_len: u64,
    pub centroids_offset: u64,
    pub centroids_len: u64,
    pub partition_meta_offset: u64,
    pub partition_meta_len: u64,
    pub partition_data_offset: u64,
    pub partition_data_len: u64,
    pub raw_offset: u64,
    pub raw_len: u64,
    pub payload_offset: u64,
    pub payload_len: u64,
    pub manifest_offset: u64,
    pub manifest_len: u64,
}

/// The model of a header: each part by its offset and length.
#[verifier::ext_equal]
pub struct HeaderModel {
    pub magic: Seq<u8>,
    pub version: nat,
    pub dim: nat,
    pub num_partitions: nat,
    pub num_vectors: nat,
    pub next_id: nat,
    pub rotation: (nat, nat),
    pub centroids: (nat, nat),
    pub partition_meta: (nat, nat),
    pub partition_data: (nat, nat),
    pub raw: (nat, nat),
    pub payload: (nat, nat),
    pub manifest: (nat, nat),
}

impl View for Header {
    type V = HeaderModel;

    open spec fn view(&self) -> HeaderModel {
        HeaderModel {
            magic: self.magic@,
            version: self.version as nat,
            dim: self.dim as nat,
            num_partitions: self.num_partitions as nat,
            num_vectors: self.num_vectors as nat,
            next_id: self.next_id as nat,
            rotation: (self.rotation_offset as nat, self.rotation_len as nat),
            centroids: (self.centroids_offset as nat, self.centroids_len as nat),
            partition_meta: (self.partition_meta_offset as nat, self.partition_meta_len as nat),
            partition_data: (self.partition_data_offset as nat, self.partition_data_len as nat),
            raw: (self.raw_offset as nat, self.raw_len as nat),
            payload: (self.payload_offset as nat, self.payload_len as nat),
            manifest: (self.manifest_offset as nat, self.manifest_len as nat),
        }
    }
}

/// The number that eight bytes at `i` stand for.
pub open spec fn long_at(b: Seq<u8>, i: int) -> nat {
    little_endian::le_value(b.subrange(i, i + 8))
}

/// The number that four bytes at `i` stand for.
pub open spec fn word_at(b: Seq<u8>, i: int) -> nat {
    little_endian::le_value(b.subrange(i, i + 4))
}

/// The header that bytes begin with.
pub open spec fn header_of(b: Seq<u8>) -> HeaderModel {
    HeaderModel {
        magic: b.subrange(0, 8),
        version: word_at(b, 8),
        dim: word_at(b, 12),
        num_partitions: word_at(b, 16),
        num_vectors: long_at(b, 20),
        next_id: long_at(b, 28),
        rotation: (long_at(b, 36), long_at(b, 44)),
        centroids: (long_at(b, 52), long_at(b, 60)),
        partition_meta: (long_at(b, 68), long_at(b, 76)),
        partition_data: (long_at(b, 84), long_at(b, 92)),
        raw: (long_at(b, 100), long_at(b, 108)),
        payload: (long_at(b, 116), long_at(b, 124)),
        manifest: (long_at(b, 132), long_at(b, 140)),
    }
}

impl Header {
    /// The short numbers of the header, in order.
    pub open spec fn words(self) -> Seq<u32> {
        seq![self.version, self.dim, self.num_partitions]
    }

    /// The long numbers of the header, in order.
    pub open spec fn longs(self) -> Seq<u64> {
        seq![
            self.num_vectors,
            self.next_id,
            self.rotation_offset,
            self.rotation_len,
            self.centroids_offset,
            self.centroids_len,
            self.partition_meta_offset,
            self.partition_meta_len,
            self.partition_data_offset,
            self.partition_data_len,
            self.raw_offset,
            self.raw_len,
            self.payload_offset,
            self.payload_len,
            self.manifest_offset,
            self.manifest_len,
        ]
    }

    /// The header as bytes.
    pub open spec fn bytes(self) -> Seq<u8> {
        self.magic@ + blocks::words_to_bytes(self.words()) + blocks::longs_to_bytes(self.longs())
    }

    /// The header as bytes.
    pub fn serialize(&self) -> (buf: Vec<u8>)
        ensures
            buf@ == self.bytes(),
            buf@.len() == HEADER_SIZE,
    {
        let mut buf: Vec<u8> = Vec::with_capacity(HEADER_SIZE);
        blocks::push_bytes(&mut buf, self.magic.as_slice());
        let words: [u32; 3] = [self.version, self.dim, self.num_partitions];
        blocks::push_words(&mut buf, words.as_slice());
        let longs: [u64; 16] = [
            self.num_vectors,
            self.next_id,
            self.rotation_offset,
            self.rotation_len,
            self.centroids_offset,
            self.centroids_len,
            self.partition_meta_offset,
            self.partition_meta_len,
            self.partition_data_offset,
            self.partition_data_len,
            self.raw_offset,
            self.raw_len,
            self.payload_offset,
            self.payload_len,
            self.manifest_offset,
            self.manifest_len,
        ];
        blocks::push_longs(&mut buf, longs.as_slice());
        proof {
            assert(words@ =~= self.words());
            assert(longs@ =~= self.longs());
            blocks::words_round_trip(self.words());
            blocks::longs_round_trip(self.longs());
            assert(buf@ =~= self.bytes());
        }
        buf
    }

    /// The header that bytes begin with, if they are enough.
    pub fn deserialize(buf: &[u8]) -> (header: Option<Self>)
        ensures
            match header {
                Some(h) => buf@.len() >= HEADER_SIZE && h@ == header_of(buf@),
                None => buf@.len() < HEADER_SIZE,
            },
    {
        if buf.len() < HEADER_SIZE {
            return None;
        }
        let magic: [u8; 8] = [buf[0], buf[1], buf[2], buf[3], buf[4], buf[5], buf[6], buf[7]];
        let header = Header {
            magic,
            version: little_endian::read_u32(buf, 8),
            dim: little_endian::read_u32(buf, 12),
            num_partitions: little_endian::read_u32(buf, 16),
            num_vectors: little_endian::read_u64(buf, 20),
            next_id: little_endian::read_u64(buf, 28),
            rotation_offset: little_endian::read_u64(buf, 36),
            rotation_len: little_endian::read_u64(buf, 44),
            centroids_offset: little_endian::read_u64(buf, 52),
            centroids_len: little_endian::read_u64(buf, 60),
            partition_meta_offset: little_endian::read_u64(buf, 68),
            partition_meta_len: little_endian::read_u64(buf, 76),
            partition_data_offset: little_endian::read_u64(buf, 84),
            partition_data_len: little_endian::read_u64(buf, 92),
            raw_offset: little_endian::read_u64(buf, 100),
            raw_len: little_endian::read_u64(buf, 108),
            payload_offset: little_endian::read_u64(buf, 116),
            payload_len: little_endian::read_u64(buf, 124),
            manifest_offset: little_endian::read_u64(buf, 132),
            manifest_len: little_endian::read_u64(buf, 140),
        };
        assert(magic@ =~= buf@.subrange(0, 8));
        assert(header@ =~= header_of(buf@));
        Some(header)
    }
}

/// A header that is written is read back, whatever follows it.
pub proof fn header_round_trip(h: Header, rest: Seq<u8>)
    ensures
        h.bytes().len() == HEADER_SIZE,
        header_of(h.bytes() + rest) == h@,
{
    let words = blocks::words_to_bytes(h.words());
    let longs = blocks::longs_to_bytes(h.longs());
    blocks::words_round_trip(h.words());
    blocks::longs_round_trip(h.longs());
    let b = h.bytes() + rest;
    assert(b.subrange(0, 8) =~= h.magic@);
    let read = blocks::bytes_to_words(words);
    assert forall|i: int| 0 <= i < 3 implies #[trigger] h.words()[i] == word_at(b, 8 + 4 * i) by {
        assert(b.subrange(8 + 4 * i, 8 + 4 * i + 4) =~= words.subrange(4 * i, 4 * i + 4));
        little_endian::le_bytes_of_value(words.subrange(4 * i, 4 * i + 4));
        little_endian::le_limits();
        assert(read[i] == h.words()[i]);
    }
    assert forall|i: int| 0 <= i < 16 implies #[trigger] h.longs()[i] == long_at(b, 20 + 8 * i) by {
        assert(b.subrange(20 + 8 * i, 20 + 8 * i + 8) =~= longs.subrange(8 * i, 8 * i + 8));
    }
    assert(h.words()[0] == h.version && h.words()[1] == h.dim && h.words()[2] == h.num_partitions);
    assert(h.longs()[0] == h.num_vectors && h.longs()[1] == h.next_id);
    assert(h.longs()[2] == h.rotation_offset && h.longs()[3] == h.rotation_len);
    assert(h.longs()[4] == h.centroids_offset && h.longs()[5] == h.centroids_len);
    assert(h.longs()[6] == h.partition_meta_offset && h.longs()[7] == h.partition_meta_len);
    assert(h.longs()[8] == h.partition_data_offset && h.longs()[9] == h.partition_data_len);
    assert(h.longs()[10] == h.raw_offset && h.longs()[11] == h.raw_len);
    assert(h.longs()[12] == h.payload_offset && h.longs()[13] == h.payload_len);
    assert(h.longs()[14] == h.manifest_offset && h.longs()[15] == h.manifest_len);
    assert(header_of(b) =~= h@);
}

/// Where the entries of a partition stand, and how many there are.
#[derive(Debug, Clone, Copy)]
pub struct PartitionMeta {
    pub offset: u64,
    pub len: u64,
    pub count: u64,
}

/// The model of a `PartitionMeta`.
pub struct MetaModel {
    pub offset: nat,
    pub len: nat,
    pub count: nat,
}

impl View for PartitionMeta {
    type V = MetaModel;

    open spec fn view(&self) -> MetaModel {
        MetaModel { offset: self.offset as nat, len: self.len as nat, count: self.count as nat }
    }
}

/// What bytes at `i` note of a partition.
pub open spec fn meta_at(b: Seq<u8>, i: int) -> MetaModel {
    MetaModel { offset: long_at(b, i), len: long_at(b, i + 8), count: long_at(b, i + 16) }
}

impl PartitionMeta {
    /// What is noted, as bytes.
    pub open spec fn bytes(self) -> Seq<u8> {
        blocks::longs_to_bytes(seq![self.offset, self.len, self.count])
    }

    /// What is noted, as bytes.
    pub fn serialize(&self) -> (buf: Vec<u8>)
        ensures
            buf@ == self.bytes(),
            buf@.len() == META_SIZE,
    {
        let mut buf: Vec<u8> = Vec::with_capacity(META_SIZE);
        let longs: [u64; 3] = [self.offset, self.len, self.count];
        blocks::push_longs(&mut buf, longs.as_slice());
        proof {
            assert(longs@ =~= seq![self.offset, self.len, self.count]);
            blocks::longs_round_trip(longs@);
            assert(buf@ =~= self.bytes());
        }
        buf
    }

    /// What bytes note of a partition, if they are enough.
    pub fn deserialize(buf: &[u8]) -> (meta: Option<Self>)
        ensures
            match meta {
                Some(m) => buf@.len() >= META_SIZE && m@ == meta_at(buf@, 0),
                None => buf@.len() < META_SIZE,
            },
    {
        if buf.len() < META_SIZE {
            return None;
        }
        Some(
            PartitionMeta {
                offset: little_endian::read_u64(buf, 0),
                len: little_endian::read_u64(buf, 8),
                count: little_endian::read_u64(buf, 16),
            },
        )
    }
}

/// What is noted of a partition is read back.
pub proof fn meta_round_trip(m: PartitionMeta)
    ensures
        m.bytes().len() == META_SIZE,
        meta_at(m.bytes(), 0) == m@,
{
    let longs = seq![m.offset, m.len, m.count];
    blocks::longs_round_trip(longs);
    assert(longs[0] == m.offset && longs[1] == m.len && longs[2] == m.count);
}

/// The end of an index file: a version and the checksum.
#[derive(Debug, Clone, Copy)]
pub struct Manifest {
    pub version: u64,
    pub checksum: u32,
}

impl Manifest {
    /// The manifest as bytes: four zeros at the end.
    pub open spec fn bytes(self) -> Seq<u8> {
        little_endian::le_bytes(self.version as nat, 8) + little_endian::le_bytes(
            self.checksum as nat,
            4,
        ) + little_endian::le_bytes(0, 4)
    }

    /// The manifest as bytes.
    pub fn serialize(&self) -> (buf: Vec<u8>)
        ensures
            buf@ == self.bytes(),
            buf@.len() == MANIFEST_SIZE,
    {
        let mut buf: Vec<u8> = Vec::with_capacity(MANIFEST_SIZE);
        little_endian::push_u64(&mut buf, self.version);
        little_endian::push_u32(&mut buf, self.checksum);
        little_endian::push_u32(&mut buf, 0);
        proof {
            little_endian::le_bytes_len(self.version as nat, 8);
            little_endian::le_bytes_len(self.checksum as nat, 4);
            little_endian::le_bytes_len(0, 4);
            assert(buf@ =~= self.bytes());
        }
        buf
    }

    /// The manifest that bytes begin with, if they are enough.
    pub fn deserialize(buf: &[u8]) -> (manifest: Option<Self>)
        ensures
            match manifest {
                Some(m) => buf@.len() >= MANIFEST_SIZE && m.version == long_at(buf@, 0) && m.checksum
                    == word_at(buf@, 8),
                None => buf@.len() < MANIFEST_SIZE,
            },
    {
        if buf.len() < MANIFEST_SIZE {
            return None;
        }
        Some(
            Manifest {
                version: little_endian::read_u64(buf, 0),
                checksum: little_endian::read_u32(buf, 8),
            },
        )
    }
}

/// A manifest is read back.
pub proof fn manifest_round_trip(m: Manifest)
    ensures
        m.bytes().len() == MANIFEST_SIZE,
        long_at(m.bytes(), 0) == m.version,
        word_at(m.bytes(), 8) == m.checksum,
{
    let b = m.bytes();
    little_endian::le_bytes_len(m.version as nat, 8);
    little_endian::le_bytes_len(m.checksum as nat, 4);
    little_endian::le_bytes_len(0, 4);
    little_endian::le_limits();
    assert(b.subrange(0, 8) =~= little_endian::le_bytes(m.version as nat, 8));
    assert(b.subrange(8, 12) =~= little_endian::le_bytes(m.checksum as nat, 4));
    little_endian::le_value_of_bytes(m.version as nat, 8);
    little_endian::le_value_of_bytes(m.checksum as nat, 4);
}

} // verus!
