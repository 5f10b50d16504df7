//! Reading a file in chunks: where the chunks of a file are, which of them a read touches, and
//! which chunks stay in memory.

use crate::memory;
use vstd::prelude::*;

verus! {

/// How many bytes a chunk has.
pub const CHUNK_SIZE: u64 = 67_108_864;

/// Why a chunked file cannot be opened or read.
#[derive(Debug, Clone, Copy, PartialEq, Eq, Structural)]
pub enum MmapError {
    /// The file has no bytes.
    Empty,
    /// What was to be read is not within the file.
    OutOfBounds,
    /// The system could not provide a part of the file.
    Unreadable,
    /// The file does not begin as an index file does.
    BadMagic,
    /// The file has another format version.
    UnsupportedVersion,
    /// The checksum is not that of the contents.
    ChecksumMismatch,
    /// A part of the file is too short for what it has to hold, or does not fit the others.
    Malformed,
}

/// The text of an error.
pub open spec fn mmap_error_text(e: MmapError) -> Seq<char> {
    match e {
        MmapError::Empty => "empty file"@,
        MmapError::OutOfBounds => "read out of bounds"@,
        MmapError::Unreadable => "cannot read file"@,
        MmapError::BadMagic => "bad magic"@,
        MmapError::UnsupportedVersion => "unsupported version"@,
        MmapError::ChecksumMismatch => "checksum mismatch"@,
        MmapError::Malformed => "malformed index file"@,
    }
}

impl MmapError {
    /// The message of the error.
    pub fn message(self) -> (m: String)
        ensures
            m@ == mmap_error_text(self),
    {
        match self {
            MmapError::Empty => "empty file".to_owned(),
            MmapError::OutOfBounds => "read out of bounds".to_owned(),
            MmapError::Unreadable => "cannot read file".to_owned(),
            MmapError::BadMagic => "bad magic".to_owned(),
            MmapError::UnsupportedVersion => "unsupported version".to_owned(),
            MmapError::ChecksumMismatch => "checksum mismatch".to_owned(),
            MmapError::Malformed => "malformed index file".to_owned(),
        }
    }
}

/// How many bytes of a file may stay in memory: the share of mapped files, and no less than a
/// chunk.
pub open spec fn cache_budget(physical: Option<u64>) -> int {
    let share = memory::share_of(memory::reckoned(physical));
    if share < CHUNK_SIZE {
        CHUNK_SIZE as int
    } else {
        share
    }
}

/// A file in chunks.
#[derive(Debug, Clone, Copy)]
pub struct ChunkLayout {
    /// How many bytes the file has.
    pub file_len: usize,
    /// How many bytes a chunk has; the last chunk may have fewer.
    pub chunk_size: u64,
}

/// A function that hands out bytes of chunks hands out those of the file `f`, where it hands out
/// any.
pub open spec fn serves<F: Fn(u64, usize, usize) -> Option<Vec<u8>>>(
    fetch: F,
    f: Seq<u8>,
    layout: ChunkLayout,
) -> bool {
    &&& f.len() == layout.file_len
    &&& forall|chunk: u64, start: usize, n: usize, out: Option<Vec<u8>>| #[trigger]
        call_ensures(fetch, (chunk, start, n), out) && out is Some && chunk * layout.chunk_size
            + start + n <= f.len() ==> out->0@ == f.subrange(
            chunk * layout.chunk_size + start,
            chunk * layout.chunk_size + start + n,
        )
}

/// A function hands out bytes of the chunks of some file.
pub open spec fn serves_some<F: Fn(u64, usize, usize) -> Option<Vec<u8>>>(
    fetch: F,
    layout: ChunkLayout,
) -> bool {
    &&& exists|f: Seq<u8>| #[trigger] serves(fetch, f, layout)
    &&& forall|chunk: u64, start: usize, n: usize| #[trigger]
        call_requires(fetch, (chunk, start, n))
}

/// `n` bytes of a chunk from `start` on are some of those of the file from `from` up to `to`.
pub open spec fn lies_within(
    layout: ChunkLayout,
    chunk: u64,
    start: usize,
    n: usize,
    from: int,
    to: int,
) -> bool {
    &&& 0 < n
    &&& start + n <= layout.chunk_size
    &&& from <= chunk * layout.chunk_size + start
    &&& chunk * layout.chunk_size + start + n <= to
}

/// A function can fail to hand out bytes of the file from `from` up to `to`.
pub open spec fn can_fail<F: Fn(u64, usize, usize) -> Option<Vec<u8>>>(
    fetch: F,
    layout: ChunkLayout,
    from: int,
    to: int,
) -> bool {
    exists|chunk: u64, start: usize, n: usize| #[trigger]
        call_ensures(fetch, (chunk, start, n), None) && lies_within(
            layout,
            chunk,
            start,
            n,
            from,
            to,
        )
}

/// A function that can fail to hand out bytes of a part can fail to hand out bytes of the whole.
pub proof fn failing_part_fails_the_whole<F: Fn(u64, usize, usize) -> Option<Vec<u8>>>(
    fetch: F,
    layout: ChunkLayout,
    part: (int, int),
    whole: (int, int),
)
    requires
        can_fail(fetch, layout, part.0, part.1),
        whole.0 <= part.0,
        part.1 <= whole.1,
    ensures
        can_fail(fetch, layout, whole.0, whole.1),
{
    let (chunk, start, n) = choose|chunk: u64, start: usize, n: usize| #[trigger]
        call_ensures(fetch, (chunk, start, n), None) && lies_within(
            layout,
            chunk,
            start,
            n,
            part.0,
            part.1,
        );
    assert(lies_within(layout, chunk, start, n, whole.0, whole.1));
}

impl ChunkLayout {
    /// The layout has chunks.
    pub open spec fn wf(self) -> bool {
        self.chunk_size > 0
    }

    /// A chunk begins within the file.
    pub open spec fn has_chunk(self, chunk: int) -> bool {
        0 <= chunk && chunk * self.chunk_size < self.file_len
    }

    /// How many bytes a chunk has.
    pub open spec fn chunk_len(self, chunk: int) -> int {
        if (chunk + 1) * self.chunk_size <= self.file_len {
            self.chunk_size as int
        } else {
            self.file_len - chunk * self.chunk_size
        }
    }

    /// Where a chunk begins and how many bytes it has.
    pub fn chunk_range(&self, chunk: u64) -> (r: (u64, usize))
        requires
            self.wf(),
            self.has_chunk(chunk as int),
        ensures
            r.0 == chunk * self.chunk_size,
            r.1 == self.chunk_len(chunk as int),
    {
        let start: u64 = chunk * self.chunk_size;
        let left: u64 = self.file_len as u64 - start;
        assert((chunk + 1) * self.chunk_size == start + self.chunk_size) by (nonlinear_arith)
            requires
                start == chunk * self.chunk_size,
        ;
        if self.chunk_size <= left {
            (start, self.chunk_size as usize)
        } else {
            (start, left as usize)
        }
    }

    /// Reads `len` bytes at `offset`, chunk by chunk.
    ///
    /// `fetch` hands out `n` bytes of a chunk from a place in it, or nothing where the system
    /// cannot provide them.
    pub fn read<F: Fn(u64, usize, usize) -> Option<Vec<u8>>>(
        &self,
        offset: u64,
        len: u64,
        fetch: &F,
    ) -> (r: Result<Vec<u8>, MmapError>)
        requires
            self.wf(),
            serves_some(*fetch, *self),
        ensures
            match r {
                Ok(out) => {
                    &&& offset + len <= self.file_len
                    &&& out@.len() == len
                    &&& forall|f: Seq<u8>| #[trigger]
                        serves(*fetch, f, *self) ==> out@ == f.subrange(
                            offset as int,
                            offset + len,
                        )
                },
                Err(MmapError::OutOfBounds) => offset + len > self.file_len,
                Err(e) => {
                    &&& e == MmapError::Unreadable
                    &&& offset + len <= self.file_len
                    &&& can_fail(*fetch, *self, offset as int, offset + len)
                },
            },
    {
        let file_len: u64 = self.file_len as u64;
        if offset > file_len || len > file_len - offset {
            return Err(MmapError::OutOfBounds);
        }
        let mut out: Vec<u8> = Vec::new();
        let mut written: u64 = 0;
        assert forall|f: Seq<u8>| #[trigger] serves(*fetch, f, *self) implies out@ == f.subrange(
            offset as int,
            offset + written,
        ) by {
            assert(out@ =~= f.subrange(offset as int, offset as int));
        }
        while written < len
            invariant
                written <= len,
                offset + len <= self.file_len,
                self.wf(),
                serves_some(*fetch, *self),
                out@.len() == written,
                forall|f: Seq<u8>| #[trigger]
                    serves(*fetch, f, *self) ==> out@ == f.subrange(
                        offset as int,
                        offset + written,
                    ),
            decreases len - written,
        {
            let at: u64 = offset + written;
            let chunk: u64 = at / self.chunk_size;
            let start: u64 = at % self.chunk_size;
            proof {
                vstd::arithmetic::div_mod::lemma_fundamental_div_mod(
                    at as int,
                    self.chunk_size as int,
                );
                vstd::arithmetic::mul::lemma_mul_is_commutative(
                    self.chunk_size as int,
                    chunk as int,
                );
            }
            let room: u64 = self.chunk_size - start;
            let n: u64 = if room < len - written {
                room
            } else {
                len - written
            };
            assert(chunk * self.chunk_size + start == at);
            match fetch(chunk, start as usize, n as usize) {
                None => {
                    assert(lies_within(
                        *self,
                        chunk,
                        start as usize,
                        n as usize,
                        offset as int,
                        offset + len,
                    ));
                    return Err(MmapError::Unreadable);
                },
                Some(piece) => {
                    let mut piece = piece;
                    let ghost before = out@;
                    let ghost added = piece@;
                    assert forall|f: Seq<u8>| #[trigger] serves(*fetch, f, *self) implies added
                        == f.subrange(at as int, at + n) && before + added == f.subrange(
                        offset as int,
                        offset + written + n,
                    ) by {
                        assert(call_ensures(fetch, (chunk, start as usize, n as usize), Some(piece)));
                        assert(before + added =~= f.subrange(
                            offset as int,
                            offset + written + n,
                        ));
                    }
                    let ghost f = choose|f: Seq<u8>| #[trigger] serves(*fetch, f, *self);
                    assert(added == f.subrange(at as int, at + n));
                    out.append(&mut piece);
                    assert(out@ =~= before + added);
                    written += n;
                },
            }
        }
        Ok(out)
    }
}

/// How many bytes chunks have together.
pub open spec fn total(layout: ChunkLayout, chunks: Seq<u64>) -> int
    decreases chunks.len(),
{
    if chunks.len() == 0 {
        0
    } else {
        total(layout, chunks.drop_last()) + layout.chunk_len(chunks.last() as int)
    }
}

/// What comes of making room: chunks leave from the back until `need` more bytes are within the
/// budget; one that is in use goes to the front instead. Each chunk is looked at once, at most
/// `steps` of them. The result is what stays, and what leaves in the order in which it leaves.
pub open spec fn make_room(
    layout: ChunkLayout,
    budget: int,
    chunks: Seq<u64>,
    need: int,
    in_use: Seq<u64>,
    steps: nat,
) -> (Seq<u64>, Seq<u64>)
    decreases steps,
{
    if steps == 0 || chunks.len() == 0 || total(layout, chunks) + need <= budget {
        (chunks, Seq::empty())
    } else {
        let last = chunks.last();
        let rest = chunks.drop_last();
        if in_use.contains(last) {
            make_room(layout, budget, seq![last] + rest, need, in_use, (steps - 1) as nat)
        } else {
            let r = make_room(layout, budget, rest, need, in_use, (steps - 1) as nat);
            (r.0, seq![last] + r.1)
        }
    }
}

/// The model of a `ChunkedMmapStorage`: the chunks in memory, the one used last in front.
#[verifier::ext_equal]
pub struct CacheModel {
    pub layout: ChunkLayout,
    pub budget: int,
    pub chunks: Seq<u64>,
}

impl CacheModel {
    /// Every chunk is in memory once and is one of the file.
    pub open spec fn wf(self) -> bool {
        &&& self.layout.wf()
        &&& self.chunks.no_duplicates()
        &&& forall|i: int|
            0 <= i < self.chunks.len() ==> self.layout.has_chunk(#[trigger] self.chunks[i] as int)
    }

    /// A chunk that is in memory was used.
    pub open spec fn touched(self, chunk: u64) -> CacheModel {
        if self.chunks.contains(chunk) {
            CacheModel {
                chunks: seq![chunk] + self.chunks.remove(self.chunks.index_of(chunk)),
                ..self
            }
        } else {
            self
        }
    }

    /// What stays and what leaves when there is room made for a chunk.
    pub open spec fn room_for(self, chunk: u64, in_use: Seq<u64>) -> (Seq<u64>, Seq<u64>) {
        make_room(
            self.layout,
            self.budget,
            self.chunks,
            self.layout.chunk_len(chunk as int),
            in_use,
            self.chunks.len(),
        )
    }

    /// A chunk came into memory.
    pub open spec fn taken_in(self, chunk: u64, in_use: Seq<u64>) -> CacheModel {
        if self.chunks.contains(chunk) {
            self
        } else {
            CacheModel { chunks: seq![chunk] + self.room_for(chunk, in_use).0, ..self }
        }
    }
}

/// Which chunks of a file are in memory, within a budget.
#[derive(Debug)]
pub struct ChunkedMmapStorage {
    layout: ChunkLayout,
    max_total_bytes: u64,
    lru: Vec<u64>,
    current_bytes: u128,
}

/// Where a chunk is in a list.
fn place_of(chunks: &Vec<u64>, chunk: u64) -> (place: Option<usize>)
    ensures
        match place {
            Some(p) => p < chunks@.len() && chunks@[p as int] == chunk && forall|i: int|
                0 <= i < p ==> chunks@[i] != chunk,
            None => !chunks@.contains(chunk),
        },
{
    let mut i: usize = 0;
    while i < chunks.len()
        invariant
            i <= chunks@.len(),
            forall|j: int| 0 <= j < i ==> chunks@[j] != chunk,
        decreases chunks@.len() - i,
    {
        if chunks[i] == chunk {
            return Some(i);
        }
        i += 1;
    }
    None
}

/// The total of chunks does not depend on their order: one at the back may stand in front.
proof fn total_front(layout: ChunkLayout, chunk: u64, rest: Seq<u64>)
    ensures
        total(layout, seq![chunk] + rest) == layout.chunk_len(chunk as int) + total(layout, rest),
    decreases rest.len(),
{
    let all = seq![chunk] + rest;
    if rest.len() == 0 {
        assert(all.drop_last() =~= Seq::empty());
        assert(total(layout, all.drop_last()) == 0);
    } else {
        total_front(layout, chunk, rest.drop_last());
        assert(all.drop_last() =~= seq![chunk] + rest.drop_last());
    }
}

/// The total of chunks without one of them.
proof fn total_remove(layout: ChunkLayout, chunks: Seq<u64>, i: int)
    requires
        0 <= i < chunks.len(),
    ensures
        total(layout, chunks) == total(layout, chunks.remove(i)) + layout.chunk_len(
            chunks[i] as int,
        ),
    decreases chunks.len(),
{
    if i == chunks.len() - 1 {
        assert(chunks.remove(i) =~= chunks.drop_last());
    } else {
        total_remove(layout, chunks.drop_last(), i);
        assert(chunks.remove(i).drop_last() =~= chunks.drop_last().remove(i));
    }
}

/// Chunks of a file have no more bytes each than a chunk can have, and at least one.
proof fn total_bounds(layout: ChunkLayout, chunks: Seq<u64>)
    requires
        layout.wf(),
        forall|i: int| 0 <= i < chunks.len() ==> layout.has_chunk(#[trigger] chunks[i] as int),
    ensures
        0 <= total(layout, chunks) <= chunks.len() * u64::MAX,
    decreases chunks.len(),
{
    if chunks.len() > 0 {
        total_bounds(layout, chunks.drop_last());
        let last = chunks.last() as int;
        assert(layout.has_chunk(chunks[chunks.len() - 1] as int));
        chunk_len_bounds(layout, last);
    }
}

/// A chunk has at least one byte and no more than a chunk can have.
proof fn chunk_len_bounds(layout: ChunkLayout, chunk: int)
    requires
        layout.wf(),
        layout.has_chunk(chunk),
    ensures
        0 < layout.chunk_len(chunk) <= layout.chunk_size,
{
    assert((chunk + 1) * layout.chunk_size == chunk * layout.chunk_size + layout.chunk_size)
        by (nonlinear_arith);
}

impl ChunkedMmapStorage {
    /// What is in memory.
    pub closed spec fn view(&self) -> CacheModel {
        CacheModel {
            layout: self.layout,
            budget: self.max_total_bytes as int,
            chunks: self.lru@,
        }
    }

    /// The model is well formed and the bytes in memory are counted.
    pub closed spec fn wf(&self) -> bool {
        &&& self@.wf()
        &&& self.current_bytes == total(self.layout, self.lru@)
    }

    /// The model is well formed.
    pub proof fn wf_model(&self)
        requires
            self.wf(),
        ensures
            self@.wf(),
    {
    }

    /// A file of which nothing is in memory yet.
    pub fn open(file_len: usize, physical: Option<u64>) -> (r: Result<Self, MmapError>)
        ensures
            match r {
                Ok(storage) => {
                    &&& file_len > 0
                    &&& storage.wf()
                    &&& storage@ == (CacheModel {
                        layout: ChunkLayout { file_len, chunk_size: CHUNK_SIZE },
                        budget: cache_budget(physical),
                        chunks: Seq::empty(),
                    })
                },
                Err(e) => file_len == 0 && e == MmapError::Empty,
            },
    {
        if file_len == 0 {
            return Err(MmapError::Empty);
        }
        let share: u64 = memory::mmap_budget(physical);
        let max_total_bytes: u64 = if share < CHUNK_SIZE {
            CHUNK_SIZE
        } else {
            share
        };
        Ok(
            ChunkedMmapStorage {
                layout: ChunkLayout { file_len, chunk_size: CHUNK_SIZE },
                max_total_bytes,
                lru: Vec::new(),
                current_bytes: 0,
            },
        )
    }

    /// How the file is cut into chunks.
    pub fn layout(&self) -> (layout: ChunkLayout)
        ensures
            layout == self@.layout,
    {
        self.layout
    }

    /// How many bytes may be in memory.
    pub fn max_total_bytes(&self) -> (bytes: u64)
        ensures
            bytes == self@.budget,
    {
        self.max_total_bytes
    }

    /// How many bytes are in memory.
    pub fn current_bytes(&self) -> (bytes: u128)
        requires
            self.wf(),
        ensures
            bytes == total(self@.layout, self@.chunks),
    {
        self.current_bytes
    }

    /// Reads `len` bytes at `offset`, chunk by chunk.
    pub fn read<F: Fn(u64, usize, usize) -> Option<Vec<u8>>>(
        &self,
        offset: u64,
        len: u64,
        fetch: &F,
    ) -> (r: Result<Vec<u8>, MmapError>)
        requires
            self.wf(),
            serves_some(*fetch, self@.layout),
        ensures
            match r {
                Ok(out) => {
                    &&& offset + len <= self@.layout.file_len
                    &&& out@.len() == len
                    &&& forall|f: Seq<u8>| #[trigger]
                        serves(*fetch, f, self@.layout) ==> out@ == f.subrange(
                            offset as int,
                            offset + len,
                        )
                },
                Err(MmapError::OutOfBounds) => offset + len > self@.layout.file_len,
                Err(e) => {
                    &&& e == MmapError::Unreadable
                    &&& offset + len <= self@.layout.file_len
                    &&& can_fail(*fetch, self@.layout, offset as int, offset + len)
                },
            },
    {
        self.layout.read(offset, len, fetch)
    }

    /// Notes that a chunk is used, and tells whether it is in memory.
    pub fn touch(&mut self, chunk: u64) -> (hit: bool)
        requires
            old(self).wf(),
        ensures
            hit == old(self)@.chunks.contains(chunk),
            final(self)@ == old(self)@.touched(chunk),
            final(self).wf(),
    {
        match place_of(&self.lru, chunk) {
            None => false,
            Some(p) => {
                let ghost before = self.lru@;
                proof {
                    assert(before[p as int] == chunk);
                    assert(before.contains(chunk));
                    assert(before.index_of(chunk) == p);
                    total_remove(self.layout, before, p as int);
                    total_front(self.layout, chunk, before.remove(p as int));
                }
                let taken: u64 = self.lru.remove(p);
                self.lru.insert(0, taken);
                assert(self.lru@ =~= seq![chunk] + before.remove(p as int));
                assert forall|i: int| 0 <= i < self.lru@.len() implies self.layout.has_chunk(
                    #[trigger] self.lru@[i] as int,
                ) by {
                    if i > 0 {
                        let j = if i - 1 < p {
                            i - 1
                        } else {
                            i
                        };
                        assert(self.lru@[i] == before[j]);
                    } else {
                        assert(self.lru@[0] == before[p as int]);
                    }
                }
                true
            },
        }
    }

    /// Takes a chunk into memory, and tells which chunks leave to make room for it. Chunks that
    /// are `in_use` stay.
    pub fn take_in(&mut self, chunk: u64, in_use: &Vec<u64>) -> (evicted: Vec<u64>)
        requires
            old(self).wf(),
            old(self)@.layout.has_chunk(chunk as int),
        ensures
            final(self)@ == old(self)@.taken_in(chunk, in_use@),
            final(self).wf(),
            evicted@ == if old(self)@.chunks.contains(chunk) {
                Seq::empty()
            } else {
                old(self)@.room_for(chunk, in_use@).1
            },
    {
        let mut evicted: Vec<u64> = Vec::new();
        if place_of(&self.lru, chunk).is_some() {
            assert(evicted@ =~= Seq::empty());
            return evicted;
        }
        let ghost start = self.lru@;
        let ghost layout = self.layout;
        let ghost budget = self.max_total_bytes as int;
        let (_, len): (u64, usize) = self.layout.chunk_range(chunk);
        let need: u128 = len as u128;
        let mut steps: usize = self.lru.len();
        let ghost goal = make_room(layout, budget, start, need as int, in_use@, start.len());
        proof {
            total_bounds(layout, start);
            chunk_len_bounds(layout, chunk as int);
            assert(evicted@ + goal.1 =~= goal.1);
        }
        while steps > 0 && self.lru.len() > 0 && self.current_bytes + need
            > self.max_total_bytes as u128
            invariant
                layout.wf(),
                self.layout == layout,
                self.max_total_bytes == budget,
                need == layout.chunk_len(chunk as int),
                self.wf(),
                0 <= need <= u64::MAX,
                self.current_bytes <= usize::MAX * u64::MAX,
                !self.lru@.contains(chunk),
                goal == (
                    make_room(layout, budget, self.lru@, need as int, in_use@, steps as nat).0,
                    evicted@ + make_room(
                        layout,
                        budget,
                        self.lru@,
                        need as int,
                        in_use@,
                        steps as nat,
                    ).1,
                ),
            decreases steps,
        {
            let ghost before = self.lru@;
            let ghost out = evicted@;
            let last: u64 = match self.lru.pop() {
                Some(last) => last,
                None => {
                    assert(false);
                    0
                },
            };
            let ghost rest = self.lru@;
            let ghost later = make_room(
                layout,
                budget,
                if in_use@.contains(last) {
                    seq![last] + rest
                } else {
                    rest
                },
                need as int,
                in_use@,
                (steps - 1) as nat,
            );
            assert(rest =~= before.drop_last());
            assert(before[before.len() - 1] == last);
            assert(layout.has_chunk(before[before.len() - 1] as int));
            assert forall|i: int| 0 <= i < rest.len() implies layout.has_chunk(
                #[trigger] rest[i] as int,
            ) by {
                assert(rest[i] == before[i]);
            }
            proof {
                chunk_len_bounds(layout, last as int);
                total_bounds(layout, rest);
            }
            if place_of(in_use, last).is_some() {
                self.lru.insert(0, last);
                assert(self.lru@ =~= seq![last] + rest);
                proof {
                    total_front(layout, last, rest);
                }
            } else {
                let (_, gone): (u64, usize) = self.layout.chunk_range(last);
                self.current_bytes = self.current_bytes - gone as u128;
                evicted.push(last);
                assert(evicted@ + later.1 =~= out + (seq![last] + later.1));
            }
            steps -= 1;
        }
        self.current_bytes = self.current_bytes + need;
        let ghost kept = self.lru@;
        self.lru.insert(0, chunk);
        proof {
            assert(evicted@ + Seq::<u64>::empty() =~= evicted@);
            assert(self.lru@ =~= seq![chunk] + kept);
            total_front(layout, chunk, kept);
            assert forall|i: int| 0 <= i < self.lru@.len() implies layout.has_chunk(
                #[trigger] self.lru@[i] as int,
            ) by {
                if i > 0 {
                    assert(self.lru@[i] == kept[i - 1]);
                }
            }
        }
        evicted
    }
}

/// Making room keeps what is in use.
proof fn room_keeps_used_steps(
    layout: ChunkLayout,
    budget: int,
    chunks: Seq<u64>,
    need: int,
    in_use: Seq<u64>,
    steps: nat,
)
    ensures
        ({
            let (stays, leaves) = make_room(layout, budget, chunks, need, in_use, steps);
            &&& forall|c: u64| #[trigger] leaves.contains(c) ==> !in_use.contains(c)
            &&& forall|c: u64|
                chunks.contains(c) <==> (#[trigger] stays.contains(c) || leaves.contains(c))
        }),
    decreases steps,
{
    let (stays, leaves) = make_room(layout, budget, chunks, need, in_use, steps);
    if steps == 0 || chunks.len() == 0 || total(layout, chunks) + need <= budget {
        assert(stays == chunks);
        assert forall|c: u64| !(#[trigger] leaves.contains(c)) by {
            assert(leaves.len() == 0);
        }
        assert forall|c: u64| chunks.contains(c) <==> (#[trigger] stays.contains(c)
            || leaves.contains(c)) by {
            assert(!leaves.contains(c));
        }
    } else {
        let last = chunks.last();
        let rest = chunks.drop_last();
        assert(chunks[chunks.len() - 1] == last);
        assert forall|c: u64| #[trigger] chunks.contains(c) <==> (rest.contains(c) || c == last) by {
            if chunks.contains(c) {
                let i = chunks.index_of(c);
                if i < rest.len() {
                    assert(rest[i] == c);
                }
            }
            if rest.contains(c) {
                let i = rest.index_of(c);
                assert(chunks[i] == c);
            }
        }
        if in_use.contains(last) {
            let turned = seq![last] + rest;
            let less = (steps - 1) as nat;
            room_keeps_used_steps(layout, budget, turned, need, in_use, less);
            assert(stays == make_room(layout, budget, turned, need, in_use, less).0);
            assert(leaves == make_room(layout, budget, turned, need, in_use, less).1);
            assert forall|c: u64| #[trigger] turned.contains(c) <==> (rest.contains(c) || c == last) by {
                if rest.contains(c) {
                    let i = rest.index_of(c);
                    assert(turned[i + 1] == c);
                }
                assert(turned[0] == last);
                if turned.contains(c) {
                    let i = turned.index_of(c);
                    if i > 0 {
                        assert(rest[i - 1] == c);
                    }
                }
            }
            assert forall|c: u64| chunks.contains(c) <==> (#[trigger] stays.contains(c)
                || leaves.contains(c)) by {
                assert(turned.contains(c) <==> (rest.contains(c) || c == last));
                assert(turned.contains(c) <==> (stays.contains(c) || leaves.contains(c)));
            }
        } else {
            room_keeps_used_steps(layout, budget, rest, need, in_use, (steps - 1) as nat);
            let more = make_room(layout, budget, rest, need, in_use, (steps - 1) as nat).1;
            assert(leaves == seq![last] + more);
            assert forall|c: u64| #[trigger] leaves.contains(c) <==> (more.contains(c) || c == last) by {
                if more.contains(c) {
                    let i = more.index_of(c);
                    assert(leaves[i + 1] == c);
                }
                assert(leaves[0] == last);
                if leaves.contains(c) {
                    let i = leaves.index_of(c);
                    if i > 0 {
                        assert(more[i - 1] == c);
                    }
                }
            }
            assert forall|c: u64| chunks.contains(c) <==> (#[trigger] stays.contains(c)
                || leaves.contains(c)) by {
                assert(rest.contains(c) <==> (stays.contains(c) || more.contains(c)));
                assert(leaves.contains(c) <==> (more.contains(c) || c == last));
            }
            assert forall|c: u64| #[trigger] leaves.contains(c) implies !in_use.contains(c) by {
                assert(leaves.contains(c) <==> (more.contains(c) || c == last));
            }
        }
    }
}

/// Making room gives enough room where the chunks behind the first `front`, which are in use, are
/// all looked at.
proof fn room_suffices_steps(
    layout: ChunkLayout,
    budget: int,
    chunks: Seq<u64>,
    need: int,
    in_use: Seq<u64>,
    steps: nat,
    front: int,
)
    requires
        0 <= front <= chunks.len(),
        chunks.len() - front <= steps,
        forall|i: int| 0 <= i < front ==> in_use.contains(#[trigger] chunks[i]),
    ensures
        ({
            let stays = make_room(layout, budget, chunks, need, in_use, steps).0;
            ||| total(layout, stays) + need <= budget
            ||| forall|i: int| 0 <= i < stays.len() ==> in_use.contains(#[trigger] stays[i])
        }),
    decreases steps,
{
    if steps == 0 || chunks.len() == 0 || total(layout, chunks) + need <= budget {
    } else {
        let last = chunks.last();
        let rest = chunks.drop_last();
        if in_use.contains(last) {
            let turned = seq![last] + rest;
            let more = if front < chunks.len() {
                front + 1
            } else {
                front
            };
            assert forall|i: int| 0 <= i < more implies in_use.contains(#[trigger] turned[i]) by {
                if i > 0 {
                    assert(turned[i] == chunks[i - 1]);
                }
            }
            room_suffices_steps(layout, budget, turned, need, in_use, (steps - 1) as nat, more);
        } else {
            if front == chunks.len() {
                assert(in_use.contains(chunks[chunks.len() - 1]));
            }
            assert forall|i: int| 0 <= i < front implies in_use.contains(#[trigger] rest[i]) by {
                assert(rest[i] == chunks[i]);
            }
            room_suffices_steps(layout, budget, rest, need, in_use, (steps - 1) as nat, front);
        }
    }
}

/// A chunk that is in use never leaves, and no chunk is lost: each stays or leaves.
pub proof fn used_chunks_stay(m: CacheModel, chunk: u64, in_use: Seq<u64>)
    ensures
        forall|c: u64| #[trigger]
            m.room_for(chunk, in_use).1.contains(c) ==> !in_use.contains(c),
        forall|c: u64|
            m.chunks.contains(c) <==> (#[trigger] m.room_for(chunk, in_use).0.contains(c)
                || m.room_for(chunk, in_use).1.contains(c)),
{
    room_keeps_used_steps(
        m.layout,
        m.budget,
        m.chunks,
        m.layout.chunk_len(chunk as int),
        in_use,
        m.chunks.len(),
    );
}

/// The budget is kept: with a chunk taken in, there are more bytes in memory than the budget only
/// where every other chunk is in use.
pub proof fn budget_is_kept(m: CacheModel, chunk: u64, in_use: Seq<u64>)
    requires
        m.wf(),
        !m.chunks.contains(chunk),
    ensures
        ({
            let after = m.taken_in(chunk, in_use);
            ||| total(m.layout, after.chunks) <= m.budget
            ||| forall|c: u64| #[trigger]
                after.chunks.contains(c) && c != chunk ==> in_use.contains(c)
        }),
{
    let need = m.layout.chunk_len(chunk as int);
    room_suffices_steps(m.layout, m.budget, m.chunks, need, in_use, m.chunks.len(), 0);
    let stays = m.room_for(chunk, in_use).0;
    let after = m.taken_in(chunk, in_use);
    total_front(m.layout, chunk, stays);
    if total(m.layout, stays) + need > m.budget {
        assert forall|c: u64| #[trigger]
            after.chunks.contains(c) && c != chunk implies in_use.contains(c) by {
            let i = after.chunks.index_of(c);
            assert(after.chunks[i] == stays[i - 1]);
        }
    }
}

} // verus!
