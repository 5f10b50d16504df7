//! What data sets hold, and what is counted in a measurement.

use crate::benchmark::DatasetError;
use crate::benchmark;
use crate::blocks;
use crate::protocol_laws;
use crate::storage_format;
use vstd::prelude::*;

verus! {

/// A row stands at the front of bytes: its length, and its numbers, each in four bytes.
pub open spec fn begins_with_row(b: Seq<u8>, row: Seq<u32>) -> bool {
    &&& 4 + 4 * row.len() <= b.len()
    &&& protocol_laws::four(b, 0) == row.len()
    &&& forall|i: int|
        0 <= i < row.len() ==> #[trigger] row[i] == protocol_laws::four(b, 4 + 4 * i)
}

/// Bytes are rows one behind the other, and what is left over.
pub open spec fn holds_rows(b: Seq<u8>, rows: Seq<Seq<u32>>, rest: Seq<u8>) -> bool
    decreases rows.len(),
{
    if rows.len() == 0 {
        b == rest
    } else {
        &&& begins_with_row(b, rows[0])
        &&& holds_rows(b.skip((4 + 4 * rows[0].len()) as int), rows.skip(1), rest)
    }
}

/// All rows have a multiple of 64 numbers, where that is asked for.
pub open spec fn have_words(rows: Seq<Seq<u32>>, by_64: bool) -> bool {
    by_64 ==> forall|i: int| 0 <= i < rows.len() ==> (#[trigger] rows[i]).len() % 64 == 0
}

/// Reading a data set ends for a reason: fewer than four bytes are left, or the next row has a length
/// that is not allowed or is longer than what is left.
pub open spec fn ends_at(rest: Seq<u8>, by_64: bool, end: Option<DatasetError>) -> bool {
    if rest.len() < 4 {
        end is None
    } else {
        let n = protocol_laws::four(rest, 0);
        if by_64 && n % 64 != 0 {
            end == Some(DatasetError::Dimension(n as u32))
        } else {
            4 + 4 * n > rest.len() && end == Some(DatasetError::Truncated)
        }
    }
}

/// A data set was read: it holds rows, all of them are there where reading ended at its end, and
/// otherwise it is refused for what comes behind them.
pub open spec fn is_read(
    b: Seq<u8>,
    by_64: bool,
    r: Result<Seq<Seq<u32>>, DatasetError>,
    rows: Seq<Seq<u32>>,
    rest: Seq<u8>,
) -> bool {
    &&& holds_rows(b, rows, rest)
    &&& have_words(rows, by_64)
    &&& match r {
        Ok(read) => read == rows && ends_at(rest, by_64, None),
        Err(e) => ends_at(rest, by_64, Some(e)),
    }
}

proof fn rows_are_read_from(b: Seq<u8>, at: int, by_64: bool) -> (r: (Seq<Seq<u32>>, Seq<u8>))
    requires
        0 <= at <= b.len(),
    ensures
        is_read(b.skip(at), by_64, benchmark::rows_from(b, at, by_64), r.0, r.1),
    decreases b.len() - at,
{
    let rest = b.skip(at);
    if at + 4 > b.len() {
        (Seq::empty(), rest)
    } else {
        protocol_laws::words_are_little_endian(b, at);
        let n = storage_format::word_at(b, at) as int;
        assert(protocol_laws::four(rest, 0) == n);
        if by_64 && n % 64 != 0 || at + 4 + 4 * n > b.len() {
            (Seq::empty(), rest)
        } else {
            let next = at + 4 + 4 * n;
            let (rows, end) = rows_are_read_from(b, next, by_64);
            let s = b.subrange(at + 4, next);
            let row = blocks::bytes_to_words(s);
            assert(row.len() == n);
            assert forall|i: int| 0 <= i < row.len() implies #[trigger] row[i]
                == protocol_laws::four(rest, 4 + 4 * i) by {
                assert(s.subrange(4 * i, 4 * i + 4) =~= b.subrange(
                    at + 4 + 4 * i,
                    at + 4 + 4 * i + 4,
                ));
                protocol_laws::words_are_little_endian(b, at + 4 + 4 * i);
            }
            let all = seq![row] + rows;
            assert(all.skip(1) =~= rows);
            assert(rest.skip(4 + 4 * n) =~= b.skip(next));
            assert(holds_rows(rest, all, end));
            assert forall|i: int| by_64 && 0 <= i < all.len() implies (#[trigger] all[i]).len() % 64
                == 0 by {
                if i > 0 {
                    assert(all[i] == rows[i - 1]);
                }
            }
            (all, end)
        }
    }
}

/// A data set is read row by row from its front on.
pub proof fn data_sets_are_read(b: Seq<u8>, by_64: bool)
    ensures
        exists|rows: Seq<Seq<u32>>, rest: Seq<u8>| #[trigger]
            is_read(b, by_64, benchmark::rows_from(b, 0, by_64), rows, rest),
{
    let (rows, rest) = rows_are_read_from(b, 0, by_64);
    assert(b.skip(0) =~= b);
    assert(is_read(b, by_64, benchmark::rows_from(b, 0, by_64), rows, rest));
}

/// A number of 32 bits as a signed number.
pub open spec fn signed_word(x: u32) -> int {
    if x >= 0x8000_0000 {
        x - 0x1_0000_0000
    } else {
        x as int
    }
}

/// A number of 64 bits as a signed number.
pub open spec fn signed_long(x: u64) -> int {
    if x >= 0x8000_0000_0000_0000 {
        x - 0x1_0000_0000_0000_0000
    } else {
        x as int
    }
}

/// The right answer to a query is the front of its row, each number with its sign, and nothing where
/// there is no row.
pub proof fn answers_come_from_rows(rows: Seq<Vec<u32>>, query: int, k: int)
    requires
        0 <= query,
        0 <= k,
    ensures
        ({
            let answer = benchmark::right_answer(rows, query, k);
            &&& query >= rows.len() ==> answer.len() == 0
            &&& query < rows.len() && k < rows[query]@.len() ==> answer.len() == k
            &&& query < rows.len() && k >= rows[query]@.len() ==> answer.len() == rows[query]@.len()
            &&& query < rows.len() ==> forall|i: int|
                0 <= i < answer.len() ==> signed_long(#[trigger] answer[i]) == signed_word(
                    rows[query]@[i],
                )
        }),
{
}

/// A result is a hit where its id is in the right answer, and the hits are counted.
pub proof fn hits_are_counted(results: Seq<(u64, u32)>, truth: Seq<u64>)
    ensures
        benchmark::hits(results, truth, results.len() as int) == results.filter(
            |r: (u64, u32)| truth.contains(r.0),
        ).len(),
    decreases results.len(),
{
    reveal(Seq::filter);
    if results.len() > 0 {
        let front = results.drop_last();
        hits_are_counted(front, truth);
        hits_of_front(results, truth, front.len() as int);
    }
}

proof fn hits_of_front(results: Seq<(u64, u32)>, truth: Seq<u64>, n: int)
    requires
        0 <= n < results.len(),
    ensures
        benchmark::hits(results, truth, n) == benchmark::hits(results.drop_last(), truth, n),
    decreases n,
{
    if n > 0 {
        hits_of_front(results, truth, n - 1);
    }
}

/// What is measured: every number of dimensions with every number of vectors, but for more than 10,000
/// vectors of more than 512 dimensions.
pub proof fn combinations_are_measured()
    ensures
        benchmark::combinations(6, 0) == seq![
            (64usize, 1_000usize),
            (64, 10_000),
            (64, 100_000),
            (128, 1_000),
            (128, 10_000),
            (128, 100_000),
            (256, 1_000),
            (256, 10_000),
            (256, 100_000),
            (512, 1_000),
            (512, 10_000),
            (512, 100_000),
            (768, 1_000),
            (768, 10_000),
            (1024, 1_000),
            (1024, 10_000),
        ],
{
    reveal_with_fuel(benchmark::combinations, 26);
}

} // verus!
