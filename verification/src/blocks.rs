//! Sequences made of blocks.

use crate::little_endian;
use vstd::prelude::*;

verus! {

/// The blocks one after another.
pub open spec fn joined<T>(blocks: Seq<Seq<T>>) -> Seq<T>
    decreases blocks.len(),
{
    if blocks.len() == 0 {
        Seq::empty()
    } else {
        joined(blocks.drop_last()) + blocks.last()
    }
}

/// Every block has `k` items.
pub open spec fn all_sized<T>(blocks: Seq<Seq<T>>, k: int) -> bool {
    forall|i: int| 0 <= i < blocks.len() ==> (#[trigger] blocks[i]).len() == k
}

/// One more block follows at the end.
pub proof fn joined_push<T>(blocks: Seq<Seq<T>>, block: Seq<T>)
    ensures
        joined(blocks.push(block)) == joined(blocks) + block,
{
    assert(blocks.push(block).drop_last() =~= blocks);
}

/// How long blocks of `k` items are together.
pub proof fn joined_len<T>(blocks: Seq<Seq<T>>, k: int)
    requires
        all_sized(blocks, k),
    ensures
        joined(blocks).len() == blocks.len() * k,
    decreases blocks.len(),
{
    if blocks.len() > 0 {
        let front = blocks.drop_last();
        assert forall|i: int| 0 <= i < front.len() implies (#[trigger] front[i]).len() == k by {
            assert(front[i] == blocks[i]);
        }
        joined_len(front, k);
        let n = front.len() as int;
        assert(blocks[n].len() == k);
        assert((n + 1) * k == n * k + k) by (nonlinear_arith);
    } else {
        assert(0 * k == 0) by (nonlinear_arith);
    }
}

/// Where a block of `k` items stands.
pub proof fn joined_at<T>(blocks: Seq<Seq<T>>, k: int, i: int)
    requires
        0 <= k,
        all_sized(blocks, k),
        0 <= i < blocks.len(),
    ensures
        0 <= i * k,
        i * k + k <= joined(blocks).len(),
        joined(blocks).len() == blocks.len() * k,
        joined(blocks).subrange(i * k, i * k + k) == blocks[i],
    decreases blocks.len(),
{
    let front = blocks.drop_last();
    let n = front.len() as int;
    let all = joined(blocks);
    assert forall|j: int| 0 <= j < front.len() implies (#[trigger] front[j]).len() == k by {
        assert(front[j] == blocks[j]);
    }
    joined_len(front, k);
    joined_len(blocks, k);
    let at = i * k;
    assert(0 <= at && at + k <= (n + 1) * k) by (nonlinear_arith)
        requires
            0 <= i <= n,
            0 <= k,
            at == i * k,
    ;
    if i < n {
        joined_at(front, k, i);
        assert(all.subrange(at, at + k) =~= joined(front).subrange(at, at + k));
        assert(front[i] == blocks[i]);
    } else {
        assert(all.subrange(at, at + k) =~= blocks.last());
    }
}

/// The bytes of each number.
pub open spec fn word_blocks(words: Seq<u32>) -> Seq<Seq<u8>> {
    Seq::new(words.len(), |i: int| little_endian::le_bytes(words[i] as nat, 4))
}

/// Numbers as bytes.
pub open spec fn words_to_bytes(words: Seq<u32>) -> Seq<u8> {
    joined(word_blocks(words))
}

/// Bytes as numbers, four each.
pub open spec fn bytes_to_words(bytes: Seq<u8>) -> Seq<u32> {
    Seq::new(
        bytes.len() / 4,
        |i: int| little_endian::le_value(bytes.subrange(4 * i, 4 * i + 4)) as u32,
    )
}

/// The bytes of each number.
pub open spec fn long_blocks(words: Seq<u64>) -> Seq<Seq<u8>> {
    Seq::new(words.len(), |i: int| little_endian::le_bytes(words[i] as nat, 8))
}

/// Long numbers as bytes.
pub open spec fn longs_to_bytes(words: Seq<u64>) -> Seq<u8> {
    joined(long_blocks(words))
}

/// Writing numbers and reading them back.
pub proof fn words_round_trip(words: Seq<u32>)
    ensures
        words_to_bytes(words).len() == 4 * words.len(),
        bytes_to_words(words_to_bytes(words)) == words,
{
    let blocks = word_blocks(words);
    let bytes = words_to_bytes(words);
    assert forall|i: int| 0 <= i < blocks.len() implies (#[trigger] blocks[i]).len() == 4 by {
        little_endian::le_bytes_len(words[i] as nat, 4);
    }
    joined_len(blocks, 4);
    little_endian::le_limits();
    assert forall|i: int| 0 <= i < words.len() implies #[trigger] bytes_to_words(bytes)[i]
        == words[i] by {
        joined_at(blocks, 4, i);
        assert(blocks[i] == bytes.subrange(4 * i, 4 * i + 4));
        little_endian::le_value_of_bytes(words[i] as nat, 4);
    }
    assert(bytes_to_words(bytes) =~= words);
}

/// Writing long numbers: how many bytes they take, and what is read back at each place.
pub proof fn longs_round_trip(words: Seq<u64>)
    ensures
        longs_to_bytes(words).len() == 8 * words.len(),
        forall|i: int|
            0 <= i < words.len() ==> #[trigger] words[i] == little_endian::le_value(
                longs_to_bytes(words).subrange(8 * i, 8 * i + 8),
            ),
{
    let blocks = long_blocks(words);
    let bytes = longs_to_bytes(words);
    assert forall|i: int| 0 <= i < blocks.len() implies (#[trigger] blocks[i]).len() == 8 by {
        little_endian::le_bytes_len(words[i] as nat, 8);
    }
    joined_len(blocks, 8);
    little_endian::le_limits();
    assert forall|i: int| 0 <= i < words.len() implies #[trigger] words[i]
        == little_endian::le_value(bytes.subrange(8 * i, 8 * i + 8)) by {
        joined_at(blocks, 8, i);
        assert(blocks[i] == bytes.subrange(8 * i, 8 * i + 8));
        little_endian::le_value_of_bytes(words[i] as nat, 8);
    }
}

/// Appends numbers as bytes.
pub fn push_words(out: &mut Vec<u8>, words: &[u32])
    ensures
        final(out)@ == old(out)@ + words_to_bytes(words@),
{
    let ghost start = out@;
    let mut i: usize = 0;
    assert(word_blocks(words@.take(0)) =~= Seq::empty());
    assert(out@ =~= start + words_to_bytes(words@.take(0)));
    while i < words.len()
        invariant
            i <= words@.len(),
            out@ == start + words_to_bytes(words@.take(i as int)),
        decreases words@.len() - i,
    {
        little_endian::push_u32(out, words[i]);
        proof {
            let next = words@.take(i + 1);
            assert(word_blocks(next) =~= word_blocks(words@.take(i as int)).push(
                little_endian::le_bytes(words@[i as int] as nat, 4),
            ));
            joined_push(
                word_blocks(words@.take(i as int)),
                little_endian::le_bytes(words@[i as int] as nat, 4),
            );
            assert(out@ =~= start + words_to_bytes(next));
        }
        i += 1;
    }
    assert(words@.take(i as int) =~= words@);
}

/// Appends long numbers as bytes.
pub fn push_longs(out: &mut Vec<u8>, words: &[u64])
    ensures
        final(out)@ == old(out)@ + longs_to_bytes(words@),
{
    let ghost start = out@;
    let mut i: usize = 0;
    assert(long_blocks(words@.take(0)) =~= Seq::empty());
    assert(out@ =~= start + longs_to_bytes(words@.take(0)));
    while i < words.len()
        invariant
            i <= words@.len(),
            out@ == start + longs_to_bytes(words@.take(i as int)),
        decreases words@.len() - i,
    {
        little_endian::push_u64(out, words[i]);
        proof {
            let next = words@.take(i + 1);
            assert(long_blocks(next) =~= long_blocks(words@.take(i as int)).push(
                little_endian::le_bytes(words@[i as int] as nat, 8),
            ));
            joined_push(
                long_blocks(words@.take(i as int)),
                little_endian::le_bytes(words@[i as int] as nat, 8),
            );
            assert(out@ =~= start + longs_to_bytes(next));
        }
        i += 1;
    }
    assert(words@.take(i as int) =~= words@);
}

/// Appends bytes.
pub fn push_bytes(out: &mut Vec<u8>, bytes: &[u8])
    ensures
        final(out)@ == old(out)@ + bytes@,
{
    let ghost start = out@;
    let mut i: usize = 0;
    assert(out@ =~= start + bytes@.take(0));
    while i < bytes.len()
        invariant
            i <= bytes@.len(),
            out@ == start + bytes@.take(i as int),
        decreases bytes@.len() - i,
    {
        out.push(bytes[i]);
        i += 1;
        assert(out@ =~= start + bytes@.take(i as int));
    }
    assert(bytes@.take(i as int) =~= bytes@);
}

/// Reads bytes as numbers; a rest of less than four bytes is left out.
pub fn read_words(bytes: &[u8]) -> (words: Vec<u32>)
    ensures
        words@ == bytes_to_words(bytes@),
{
    let len: usize = bytes.len();
    let n: usize = len / 4;
    let mut words: Vec<u32> = Vec::with_capacity(n);
    let mut i: usize = 0;
    while i < n
        invariant
            len == bytes@.len(),
            n == len / 4,
            i <= n,
            words@ == bytes_to_words(bytes@).take(i as int),
        decreases n - i,
    {
        words.push(little_endian::read_u32(bytes, 4 * i));
        i += 1;
        assert(words@ =~= bytes_to_words(bytes@).take(i as int));
    }
    assert(words@ =~= bytes_to_words(bytes@));
    words
}

} // verus!
