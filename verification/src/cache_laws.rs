//! Which chunks of a file are kept in memory, and how much memory that may take.

use crate::chunked_storage::{CacheModel, ChunkLayout};
use crate::chunked_storage;
use crate::memory;
use vstd::prelude::*;

verus! {

/// Every byte of a file lies in one chunk, at one place: the chunk of the byte is there, and the place
/// is within it. A chunk that is there holds no byte behind the end of the file.
pub proof fn bytes_lie_in_chunks(layout: ChunkLayout, byte: int)
    requires
        layout.wf(),
        0 <= byte,
    ensures
        byte < layout.file_len <==> {
            let chunk = byte / (layout.chunk_size as int);
            layout.has_chunk(chunk) && byte % (layout.chunk_size as int) < layout.chunk_len(chunk)
        },
{
    let size = layout.chunk_size as int;
    let chunk = byte / size;
    assert(byte == chunk * size + byte % size && 0 <= byte % size < size && 0 <= chunk)
        by (nonlinear_arith)
        requires
            0 < size,
            0 <= byte,
            chunk == byte / size,
    ;
    assert((chunk + 1) * size == chunk * size + size) by (nonlinear_arith);
}

/// A chunk is never longer than the size of chunks, and one that is not the last has this size.
pub proof fn chunks_are_full(layout: ChunkLayout, chunk: int)
    requires
        layout.wf(),
        layout.has_chunk(chunk),
    ensures
        0 < layout.chunk_len(chunk) <= layout.chunk_size,
        layout.has_chunk(chunk + 1) ==> layout.chunk_len(chunk) == layout.chunk_size,
        !layout.has_chunk(chunk + 1) ==> chunk * layout.chunk_size + layout.chunk_len(chunk)
            == layout.file_len,
{
    let size = layout.chunk_size as int;
    assert((chunk + 1) * size == chunk * size + size) by (nonlinear_arith);
}

/// How many bytes chunks take, each as many as are left of the file behind its start, and at most the
/// size of a chunk.
pub open spec fn bytes_taken(layout: ChunkLayout, chunks: Seq<u64>) -> int {
    chunks.fold_left(
        0int,
        |sum: int, chunk: u64|
            {
                let left = layout.file_len - chunk * layout.chunk_size;
                sum + if left < layout.chunk_size {
                    left
                } else {
                    layout.chunk_size as int
                }
            },
    )
}

/// What is counted as taken is what the chunks take.
pub proof fn taken_bytes_are_counted(layout: ChunkLayout, chunks: Seq<u64>)
    ensures
        chunked_storage::total(layout, chunks) == bytes_taken(layout, chunks),
    decreases chunks.len(),
{
    if chunks.len() > 0 {
        taken_bytes_are_counted(layout, chunks.drop_last());
        let (chunk, size) = (chunks.last() as int, layout.chunk_size as int);
        assert((chunk + 1) * size == chunk * size + size) by (nonlinear_arith);
    }
}

/// A chunk that is used moves to the front, and the others keep their order.
pub proof fn used_chunk_moves_to_the_front(m: CacheModel, place: int)
    requires
        m.wf(),
        0 <= place < m.chunks.len(),
    ensures
        ({
            let after = m.touched(m.chunks[place]);
            &&& after.layout == m.layout
            &&& after.budget == m.budget
            &&& after.chunks.len() == m.chunks.len()
            &&& after.chunks[0] == m.chunks[place]
            &&& forall|i: int| 0 <= i < place ==> after.chunks[i + 1] == #[trigger] m.chunks[i]
            &&& forall|i: int|
                place < i < m.chunks.len() ==> #[trigger] after.chunks[i] == m.chunks[i]
        }),
{
    let chunk = m.chunks[place];
    assert(m.chunks.contains(chunk));
    assert(m.chunks.index_of(chunk) == place);
    let rest = m.chunks.remove(place);
    assert forall|i: int| 0 <= i < place implies m.touched(chunk).chunks[i + 1] == #[trigger] m.chunks[i] by {
        assert(rest[i] == m.chunks[i]);
    }
}

/// A chunk that is not held moves nothing.
pub proof fn absent_chunk_moves_nothing(m: CacheModel, chunk: u64)
    requires
        !m.chunks.contains(chunk),
    ensures
        m.touched(chunk) == m,
{
}

/// Whether a chunk is in use.
pub open spec fn being_used(in_use: Seq<u64>) -> spec_fn(u64) -> bool {
    |chunk: u64| in_use.contains(chunk)
}

/// Whether a chunk is not in use.
pub open spec fn being_idle(in_use: Seq<u64>) -> spec_fn(u64) -> bool {
    |chunk: u64| !in_use.contains(chunk)
}

/// What stays when the last `n` chunks have been looked at: those of them that are in use come to the
/// front, in their order, and the chunks before them follow.
pub open spec fn staying(chunks: Seq<u64>, in_use: Seq<u64>, n: int) -> Seq<u64> {
    chunks.skip(chunks.len() - n).filter(being_used(in_use)) + chunks.take(chunks.len() - n)
}

/// What has left when the last `n` chunks have been looked at, from the last on: those of them that
/// are not in use.
pub open spec fn leaving(chunks: Seq<u64>, in_use: Seq<u64>, n: int) -> Seq<u64> {
    chunks.skip(chunks.len() - n).filter(being_idle(in_use)).reverse()
}

/// There is room for some more bytes.
pub open spec fn has_room(m: CacheModel, chunks: Seq<u64>, need: int) -> bool {
    bytes_taken(m.layout, chunks) + need <= m.budget
}

proof fn one_more_is_looked_at(chunks: Seq<u64>, in_use: Seq<u64>, n: int)
    requires
        0 <= n < chunks.len(),
    ensures
        ({
            let now = staying(chunks, in_use, n);
            let last = chunks[chunks.len() - n - 1];
            &&& now.len() > 0
            &&& now.last() == last
            &&& in_use.contains(last) ==> staying(chunks, in_use, n + 1) == seq![last]
                + now.drop_last() && leaving(chunks, in_use, n + 1) == leaving(chunks, in_use, n)
            &&& !in_use.contains(last) ==> staying(chunks, in_use, n + 1) == now.drop_last()
                && leaving(chunks, in_use, n + 1) == leaving(chunks, in_use, n).push(last)
        }),
{
    let k = chunks.len() - n;
    let now = staying(chunks, in_use, n);
    let last = chunks[k - 1];
    let back = chunks.skip(k);
    let more = chunks.skip(k - 1);
    assert(more =~= seq![last] + back);
    back.lemma_filter_prepend(last, being_used(in_use));
    back.lemma_filter_prepend(last, being_idle(in_use));
    assert(now.drop_last() =~= back.filter(being_used(in_use)) + chunks.take(k - 1));
    if in_use.contains(last) {
        assert(more.filter(being_used(in_use)) =~= seq![last] + back.filter(being_used(in_use)));
        assert(more.filter(being_idle(in_use)) =~= back.filter(being_idle(in_use)));
        assert(staying(chunks, in_use, n + 1) =~= seq![last] + now.drop_last());
    } else {
        assert(more.filter(being_used(in_use)) =~= back.filter(being_used(in_use)));
        assert(more.filter(being_idle(in_use)) =~= seq![last] + back.filter(being_idle(in_use)));
        assert(leaving(chunks, in_use, n + 1) =~= leaving(chunks, in_use, n).push(last));
    }
}

proof fn room_is_made(m: CacheModel, need: int, in_use: Seq<u64>, n: int) -> (k: int)
    requires
        0 <= n <= m.chunks.len(),
    ensures
        n <= k <= m.chunks.len(),
        ({
            let chunks = m.chunks;
            let r = chunked_storage::make_room(
                m.layout,
                m.budget,
                staying(chunks, in_use, n),
                need,
                in_use,
                (chunks.len() - n) as nat,
            );
            &&& r.0 == staying(chunks, in_use, k)
            &&& leaving(chunks, in_use, n) + r.1 == leaving(chunks, in_use, k)
            &&& k == chunks.len() || has_room(m, staying(chunks, in_use, k), need) || staying(
                chunks,
                in_use,
                k,
            ).len() == 0
            &&& forall|j: int|
                n <= j < k ==> !has_room(m, #[trigger] staying(chunks, in_use, j), need)
        }),
    decreases m.chunks.len() - n,
{
    let chunks = m.chunks;
    let now = staying(chunks, in_use, n);
    taken_bytes_are_counted(m.layout, now);
    if n == chunks.len() || now.len() == 0 || has_room(m, now, need) {
        let r = chunked_storage::make_room(
            m.layout,
            m.budget,
            now,
            need,
            in_use,
            (chunks.len() - n) as nat,
        );
        assert(leaving(chunks, in_use, n) + r.1 =~= leaving(chunks, in_use, n));
        n
    } else {
        one_more_is_looked_at(chunks, in_use, n);
        let k = room_is_made(m, need, in_use, n + 1);
        let last = chunks[chunks.len() - n - 1];
        let next = chunked_storage::make_room(
            m.layout,
            m.budget,
            staying(chunks, in_use, n + 1),
            need,
            in_use,
            (chunks.len() - (n + 1)) as nat,
        );
        if !in_use.contains(last) {
            assert(leaving(chunks, in_use, n) + (seq![last] + next.1) =~= leaving(
                chunks,
                in_use,
                n,
            ).push(last) + next.1);
        }
        assert forall|j: int| n <= j < k implies !has_room(
            m,
            #[trigger] staying(chunks, in_use, j),
            need,
        ) by {
            if j > n {
                assert(!has_room(m, staying(chunks, in_use, j), need));
            }
        }
        k
    }
}

/// A new chunk is taken in at the front, and to make room for it chunks are looked at from the one that
/// was used the longest ago on, no more than are needed: those that are not in use leave.
pub proof fn least_used_chunks_leave(m: CacheModel, chunk: u64, in_use: Seq<u64>)
    requires
        m.wf(),
        !m.chunks.contains(chunk),
    ensures
        exists|k: int|
            {
                let need = m.layout.chunk_len(chunk as int);
                let stay = #[trigger] staying(m.chunks, in_use, k);
                &&& 0 <= k <= m.chunks.len()
                &&& m.taken_in(chunk, in_use).layout == m.layout
                &&& m.taken_in(chunk, in_use).budget == m.budget
                &&& m.taken_in(chunk, in_use).chunks == seq![chunk] + stay
                &&& m.room_for(chunk, in_use).1 == leaving(m.chunks, in_use, k)
                &&& k == m.chunks.len() || stay.len() == 0 || has_room(m, stay, need)
                &&& forall|j: int|
                    0 <= j < k ==> !has_room(m, #[trigger] staying(m.chunks, in_use, j), need)
            },
{
    let need = m.layout.chunk_len(chunk as int);
    let k = room_is_made(m, need, in_use, 0);
    assert(staying(m.chunks, in_use, 0) =~= m.chunks) by {
        reveal(Seq::filter);
        assert(m.chunks.skip(m.chunks.len() as int) =~= Seq::empty());
    }
    assert(leaving(m.chunks, in_use, 0) =~= Seq::empty()) by {
        reveal(Seq::filter);
        assert(m.chunks.skip(m.chunks.len() as int) =~= Seq::empty());
    }
    assert(leaving(m.chunks, in_use, 0) + m.room_for(chunk, in_use).1 =~= m.room_for(
        chunk,
        in_use,
    ).1);
    let stay = staying(m.chunks, in_use, k);
    assert(m.room_for(chunk, in_use).0 == stay);
}

/// A file may take half of the memory where that is less than 16 GiB, and 85 in 100 parts of it
/// otherwise. Memory that is not known counts as the largest there can be.
pub proof fn memory_is_shared(physical: Option<u64>)
    ensures
        ({
            let all = match physical {
                Some(bytes) => bytes as int,
                None => 0xFFFF_FFFF_FFFF_FFFF,
            };
            let share = memory::share_of(memory::reckoned(physical));
            &&& all < 16 * 1024 * 1024 * 1024 ==> 2 * share <= all < 2 * share + 2
            &&& all >= 16 * 1024 * 1024 * 1024 ==> 100 * share <= 85 * all < 100 * share + 100
            &&& chunked_storage::cache_budget(physical) >= share
            &&& share >= 64 * 1024 * 1024 ==> chunked_storage::cache_budget(physical) == share
            &&& share < 64 * 1024 * 1024 ==> chunked_storage::cache_budget(physical) == 64 * 1024
                * 1024
        }),
{
}

} // verus!
