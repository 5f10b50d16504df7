//! Measuring a search: reading data sets, and what is counted.

use crate::blocks;
use crate::little_endian;
use crate::storage_format;
use vstd::prelude::*;
use vstd::slice::slice_subrange;

verus! {

/// Why a data set cannot be read.
#[derive(Debug, Clone, Copy, PartialEq, Eq, Structural)]
pub enum DatasetError {
    /// The dimension of a vector is no multiple of 64.
    Dimension(u32),
    /// A row ends too early.
    Truncated,
}

/// The rows from `at` on: each is its length and as many numbers. Fewer than four bytes at the end
/// are left over.
pub open spec fn rows_from(b: Seq<u8>, at: int, by_64: bool) -> Result<Seq<Seq<u32>>, DatasetError>
    decreases b.len() - at,
{
    if at < 0 || at + 4 > b.len() {
        Ok(Seq::empty())
    } else {
        let n = storage_format::word_at(b, at) as int;
        if by_64 && n % 64 != 0 {
            Err(DatasetError::Dimension(n as u32))
        } else if at + 4 + 4 * n > b.len() {
            Err(DatasetError::Truncated)
        } else {
            match rows_from(b, at + 4 + 4 * n, by_64) {
                Ok(rest) => Ok(
                    seq![blocks::bytes_to_words(b.subrange(at + 4, at + 4 + 4 * n))] + rest,
                ),
                Err(e) => Err(e),
            }
        }
    }
}

/// The views of rows.
pub open spec fn row_views(rows: Seq<Vec<u32>>) -> Seq<Seq<u32>> {
    rows.map_values(|r: Vec<u32>| r@)
}

/// Rows in front of the rest.
pub open spec fn in_front(
    rows: Seq<Seq<u32>>,
    rest: Result<Seq<Seq<u32>>, DatasetError>,
) -> Result<Seq<Seq<u32>>, DatasetError> {
    match rest {
        Ok(more) => Ok(rows + more),
        Err(e) => Err(e),
    }
}

/// Reads rows.
fn read_rows(b: &[u8], by_64: bool) -> (r: Result<Vec<Vec<u32>>, DatasetError>)
    ensures
        match r {
            Ok(rows) => rows_from(b@, 0, by_64) == Ok::<Seq<Seq<u32>>, DatasetError>(
                row_views(rows@),
            ),
            Err(e) => rows_from(b@, 0, by_64) == Err::<Seq<Seq<u32>>, DatasetError>(e),
        },
{
    let len: usize = b.len();
    let mut rows: Vec<Vec<u32>> = Vec::new();
    let mut at: usize = 0;
    let ghost whole = rows_from(b@, 0, by_64);
    assert(row_views(rows@) =~= Seq::empty());
    assert(in_front(Seq::empty(), whole) == whole) by {
        if let Ok(more) = whole {
            assert(Seq::<Seq<u32>>::empty() + more =~= more);
        }
    }
    while len - at >= 4
        invariant
            at <= len,
            len == b@.len(),
            whole == in_front(row_views(rows@), rows_from(b@, at as int, by_64)),
            whole == rows_from(b@, 0, by_64),
        decreases len - at,
    {
        let n: u32 = little_endian::read_u32(b, at);
        if by_64 && n % 64 != 0 {
            return Err(DatasetError::Dimension(n));
        }
        let size: u64 = 4 * n as u64;
        if size > (len - at - 4) as u64 {
            return Err(DatasetError::Truncated);
        }
        let end: usize = at + 4 + size as usize;
        let row = blocks::read_words(slice_subrange(b, at + 4, end));
        let ghost before = row_views(rows@);
        let ghost rest = rows_from(b@, end as int, by_64);
        rows.push(row);
        proof {
            assert(row_views(rows@) =~= before.push(row@));
            if let Ok(more) = rest {
                assert(before + (seq![row@] + more) =~= row_views(rows@) + more);
            }
        }
        at = end;
    }
    assert(row_views(rows@) + Seq::<Seq<u32>>::empty() =~= row_views(rows@));
    Ok(rows)
}

/// Reads vectors in the `fvecs` format: each is its dimension, a multiple of 64, and its numbers.
pub fn read_fvecs(b: &[u8]) -> (r: Result<Vec<Vec<u32>>, DatasetError>)
    ensures
        match r {
            Ok(rows) => rows_from(b@, 0, true) == Ok::<Seq<Seq<u32>>, DatasetError>(
                row_views(rows@),
            ),
            Err(e) => rows_from(b@, 0, true) == Err::<Seq<Seq<u32>>, DatasetError>(e),
        },
{
    read_rows(b, true)
}

/// Reads lists of ids in the `ivecs` format: each is its length and its ids.
pub fn read_ivecs(b: &[u8]) -> (r: Result<Vec<Vec<u32>>, DatasetError>)
    ensures
        match r {
            Ok(rows) => rows_from(b@, 0, false) == Ok::<Seq<Seq<u32>>, DatasetError>(
                row_views(rows@),
            ),
            Err(e) => rows_from(b@, 0, false) == Err::<Seq<Seq<u32>>, DatasetError>(e),
        },
{
    read_rows(b, false)
}

/// How many results are compared: no more than are known to be right.
pub fn effective_k(k: usize, truth: Option<usize>) -> (r: usize)
    ensures
        r == match truth {
            Some(n) => if n < k {
                n
            } else {
                k
            },
            None => k,
        },
{
    match truth {
        Some(n) => if n < k {
            n
        } else {
            k
        },
        None => k,
    }
}

/// How many candidates are measured again: ten for each result where it is not said.
pub fn effective_refine_k(refine_k: usize, k: usize) -> (r: usize)
    requires
        refine_k == 0 ==> 10 * k <= usize::MAX,
    ensures
        r == if refine_k == 0 {
            10 * k
        } else {
            refine_k as int
        },
{
    if refine_k == 0 {
        k * 10
    } else {
        refine_k
    }
}

/// The id that a number of an answer stands for: the number is signed, and widened with its sign.
pub open spec fn widened(number: u32) -> int {
    if number < 0x8000_0000 {
        number as int
    } else {
        number + 0xFFFF_FFFF_0000_0000
    }
}

/// The right answer to a query: the first `k` ids of its row, none where there is no row.
pub open spec fn right_answer(rows: Seq<Vec<u32>>, query: int, k: int) -> Seq<u64> {
    if query < rows.len() {
        let row = rows[query]@;
        Seq::new(
            if k < row.len() {
                k as nat
            } else {
                row.len()
            },
            |i: int| widened(row[i]) as u64,
        )
    } else {
        Seq::empty()
    }
}

/// The right answer to a query.
pub fn truth_of(rows: &Vec<Vec<u32>>, query: usize, k: usize) -> (truth: Vec<u64>)
    ensures
        truth@ == right_answer(rows@, query as int, k as int),
{
    let mut truth: Vec<u64> = Vec::new();
    if query < rows.len() {
        let row = &rows[query];
        let n: usize = if k < row.len() {
            k
        } else {
            row.len()
        };
        let ghost wanted = right_answer(rows@, query as int, k as int);
        while truth.len() < n
            invariant
                n <= row@.len(),
                wanted.len() == n,
                forall|i: int| 0 <= i < n ==> #[trigger] wanted[i] == widened(row@[i]) as u64,
                truth@.len() <= n,
                truth@ == wanted.take(truth@.len() as int),
            decreases n - truth@.len(),
        {
            let number: u32 = row[truth.len()];
            let id: u64 = if number < 0x8000_0000 {
                number as u64
            } else {
                number as u64 + 0xFFFF_FFFF_0000_0000
            };
            truth.push(id);
            assert(truth@ =~= wanted.take(truth@.len() as int));
        }
        assert(wanted.take(n as int) =~= wanted);
    }
    truth
}

/// How many of the first `n` results are right.
pub open spec fn hits(results: Seq<(u64, u32)>, truth: Seq<u64>, n: int) -> int
    decreases n,
{
    if n <= 0 {
        0
    } else {
        hits(results, truth, n - 1) + if truth.contains(results[n - 1].0) {
            1int
        } else {
            0
        }
    }
}

/// Whether an id is in a list.
fn has_id(ids: &Vec<u64>, id: u64) -> (r: bool)
    ensures
        r == ids@.contains(id),
{
    let mut i: usize = 0;
    while i < ids.len()
        invariant
            i <= ids@.len(),
            forall|j: int| 0 <= j < i ==> ids@[j] != id,
        decreases ids@.len() - i,
    {
        if ids[i] == id {
            return true;
        }
        i += 1;
    }
    false
}

/// How many results are right.
pub fn count_hits(results: &Vec<(u64, u32)>, truth: &Vec<u64>) -> (n: usize)
    ensures
        n == hits(results@, truth@, results@.len() as int),
        n <= results@.len(),
{
    let mut n: usize = 0;
    let mut i: usize = 0;
    while i < results.len()
        invariant
            i <= results@.len(),
            n <= i,
            n == hits(results@, truth@, i as int),
        decreases results@.len() - i,
    {
        if has_id(truth, results[i].0) {
            n += 1;
        }
        i += 1;
    }
    n
}

/// Where the median of `n` sorted values is, and the value that 99 percent do not exceed.
pub fn percentile_places(n: usize) -> (p: (usize, usize))
    requires
        0 < n,
        99 * n <= usize::MAX,
    ensures
        p.0 == n / 2,
        p.1 == 99 * n / 100,
        p.0 < n,
        p.1 < n,
{
    (n / 2, (n * 99) / 100)
}

/// The dimensions of the measuring matrix.
pub open spec fn matrix_dims() -> Seq<usize> {
    seq![64usize, 128, 256, 512, 768, 1024]
}

/// The numbers of vectors of the measuring matrix.
pub open spec fn matrix_sizes() -> Seq<usize> {
    seq![1_000usize, 10_000, 100_000]
}

/// A combination is measured: many vectors are left out in high dimensions.
pub open spec fn is_measured(dim: usize, n: usize) -> bool {
    !(n > 10_000 && dim > 512)
}

/// The combinations of the first `d` dimensions, and of the first `s` sizes in the next one.
pub open spec fn combinations(d: int, s: int) -> Seq<(usize, usize)>
    decreases d, s,
{
    if d < 0 || s < 0 {
        Seq::empty()
    } else if s == 0 {
        if d == 0 {
            Seq::empty()
        } else {
            combinations(d - 1, matrix_sizes().len() as int)
        }
    } else if is_measured(matrix_dims()[d], matrix_sizes()[s - 1]) {
        combinations(d, s - 1).push((matrix_dims()[d], matrix_sizes()[s - 1]))
    } else {
        combinations(d, s - 1)
    }
}

/// The dimensions and numbers of vectors that are measured.
pub fn matrix() -> (m: Vec<(usize, usize)>)
    ensures
        m@ == combinations(6, 0),
{
    let dims: Vec<usize> = vec![64, 128, 256, 512, 768, 1024];
    let sizes: Vec<usize> = vec![1_000, 10_000, 100_000];
    assert(dims@ =~= matrix_dims());
    assert(sizes@ =~= matrix_sizes());
    let mut m: Vec<(usize, usize)> = Vec::new();
    let mut d: usize = 0;
    while d < dims.len()
        invariant
            d <= dims@.len(),
            dims@ == matrix_dims(),
            sizes@ == matrix_sizes(),
            m@ == combinations(d as int, 0),
        decreases dims@.len() - d,
    {
        let mut s: usize = 0;
        while s < sizes.len()
            invariant
                s <= sizes@.len(),
                d < dims@.len(),
                dims@ == matrix_dims(),
                sizes@ == matrix_sizes(),
                m@ == combinations(d as int, s as int),
            decreases sizes@.len() - s,
        {
            if !(sizes[s] > 10_000 && dims[d] > 512) {
                m.push((dims[d], sizes[s]));
            }
            s += 1;
        }
        d += 1;
    }
    m
}

} // verus!
