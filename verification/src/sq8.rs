//! SQ8: eight bits per dimension within the range that a partition spans.

use crate::ieee;
use vstd::prelude::*;

verus! {

/// The SQ8 codes of the vectors of one partition.
#[derive(Debug)]
pub struct Sq8Data {
    /// The smallest number of each dimension.
    pub min: Vec<u32>,
    /// The largest number of each dimension.
    pub max: Vec<u32>,
    /// The code of each vector, a byte per dimension.
    pub codes: Vec<Vec<u8>>,
}

/// The model of `Sq8Data`.
#[verifier::ext_equal]
pub struct Sq8 {
    pub min: Seq<u32>,
    pub max: Seq<u32>,
    pub codes: Seq<Seq<u8>>,
}

/// The views of codes.
pub open spec fn code_views(codes: Seq<Vec<u8>>) -> Seq<Seq<u8>> {
    Seq::new(codes.len(), |i: int| codes[i]@)
}

impl View for Sq8Data {
    type V = Sq8;

    open spec fn view(&self) -> Sq8 {
        Sq8 { min: self.min@, max: self.max@, codes: code_views(self.codes@) }
    }
}

/// The views of vectors that are borrowed.
pub open spec fn slice_views(vectors: Seq<&[u32]>) -> Seq<Seq<u32>> {
    Seq::new(vectors.len(), |i: int| vectors[i]@)
}

/// The smallest number that the first `n` vectors have in dimension `d`.
pub open spec fn low_of(vectors: Seq<Seq<u32>>, d: int, n: int) -> u32
    decreases n,
{
    if n <= 0 {
        ieee::SINGLE_MAX
    } else {
        let low = low_of(vectors, d, n - 1);
        if ieee::single_lt(vectors[n - 1][d], low) {
            vectors[n - 1][d]
        } else {
            low
        }
    }
}

/// The largest number that the first `n` vectors have in dimension `d`.
pub open spec fn high_of(vectors: Seq<Seq<u32>>, d: int, n: int) -> u32
    decreases n,
{
    if n <= 0 {
        ieee::SINGLE_MIN
    } else {
        let high = high_of(vectors, d, n - 1);
        if ieee::single_lt(high, vectors[n - 1][d]) {
            vectors[n - 1][d]
        } else {
            high
        }
    }
}

/// `code` is what the quantizing function made of a vector, dimension by dimension.
pub open spec fn quantized_by<Q: Fn(u32, u32, u32) -> u8>(
    quantize: Q,
    vector: Seq<u32>,
    min: Seq<u32>,
    max: Seq<u32>,
    code: Seq<u8>,
) -> bool {
    &&& code.len() == vector.len()
    &&& forall|d: int|
        0 <= d < vector.len() ==> call_ensures(
            quantize,
            (vector[d], min[d], max[d]),
            #[trigger] code[d],
        )
}

/// `data` describes the vectors: the range of every dimension, and their codes in that range.
pub open spec fn built_from<Q: Fn(u32, u32, u32) -> u8>(
    quantize: Q,
    vectors: Seq<Seq<u32>>,
    data: Sq8,
) -> bool {
    let dim = if vectors.len() == 0 {
        0
    } else {
        vectors[0].len()
    };
    &&& data.min == Seq::new(dim, |d: int| low_of(vectors, d, vectors.len() as int))
    &&& data.max == Seq::new(dim, |d: int| high_of(vectors, d, vectors.len() as int))
    &&& data.codes.len() == vectors.len()
    &&& forall|i: int|
        0 <= i < vectors.len() ==> quantized_by(
            quantize,
            vectors[i],
            data.min,
            data.max,
            #[trigger] data.codes[i],
        )
}

/// `vector` is what the restoring function made of a code, dimension by dimension.
pub open spec fn restored_by<R: Fn(u8, u32, u32) -> u32>(
    restore: R,
    data: Sq8,
    code: Seq<u8>,
    vector: Seq<u32>,
) -> bool {
    &&& vector.len() == data.min.len()
    &&& forall|d: int|
        0 <= d < vector.len() ==> call_ensures(
            restore,
            (code[d], data.min[d], data.max[d]),
            #[trigger] vector[d],
        )
}

impl Sq8 {
    /// Both ends of the range and every code have a place per dimension.
    pub open spec fn wf(self) -> bool {
        &&& self.min.len() == self.max.len()
        &&& forall|i: int|
            0 <= i < self.codes.len() ==> (#[trigger] self.codes[i]).len() == self.min.len()
    }
}

/// Every number of the vectors lies in the range of its dimension.
pub proof fn range_holds_all(vectors: Seq<Seq<u32>>, d: int, n: int, i: int)
    requires
        0 <= i < n <= vectors.len(),
    ensures
        !ieee::single_lt(vectors[i][d], low_of(vectors, d, n)),
        !ieee::single_lt(high_of(vectors, d, n), vectors[i][d]),
    decreases n,
{
    range_bounds_are_numbers(vectors, d, n - 1);
    if i < n - 1 {
        range_holds_all(vectors, d, n - 1, i);
    }
}

proof fn range_bounds_are_numbers(vectors: Seq<Seq<u32>>, d: int, n: int)
    ensures
        !ieee::single_nan(low_of(vectors, d, n)),
        !ieee::single_nan(high_of(vectors, d, n)),
    decreases n,
{
    if n > 0 {
        range_bounds_are_numbers(vectors, d, n - 1);
    }
}

impl Sq8Data {
    /// The data of a partition without vectors.
    pub fn new(dim: usize) -> (data: Self)
        ensures
            data@.min == Seq::new(dim as nat, |d: int| ieee::SINGLE_MAX),
            data@.max == Seq::new(dim as nat, |d: int| ieee::SINGLE_MIN),
            data@.codes.len() == 0,
            data@.wf(),
    {
        let data = Sq8Data {
            min: vec![ieee::SINGLE_MAX; dim],
            max: vec![ieee::SINGLE_MIN; dim],
            codes: Vec::new(),
        };
        assert(data@.min =~= Seq::new(dim as nat, |d: int| ieee::SINGLE_MAX));
        assert(data@.max =~= Seq::new(dim as nat, |d: int| ieee::SINGLE_MIN));
        data
    }

    /// The data of some vectors; `quantize` gives the byte of a number within a range.
    pub fn build<Q: Fn(u32, u32, u32) -> u8>(vectors: &[&[u32]], quantize: &Q) -> (data: Self)
        requires
            forall|i: int|
                0 <= i < vectors@.len() ==> (#[trigger] vectors@[i])@.len() == vectors@[0]@.len(),
            forall|v: u32, lo: u32, hi: u32| #[trigger] call_requires(*quantize, (v, lo, hi)),
        ensures
            built_from(*quantize, slice_views(vectors@), data@),
            data@.wf(),
    {
        let ghost rows = slice_views(vectors@);
        if vectors.len() == 0 {
            let data = Sq8Data::new(0);
            assert(data@.min =~= Seq::new(0, |d: int| low_of(rows, d, 0)));
            assert(data@.max =~= Seq::new(0, |d: int| high_of(rows, d, 0)));
            return data;
        }
        let n: usize = vectors.len();
        let dim: usize = vectors[0].len();
        let mut min: Vec<u32> = Vec::with_capacity(dim);
        let mut max: Vec<u32> = Vec::with_capacity(dim);
        let mut d: usize = 0;
        while d < dim
            invariant
                n == vectors@.len(),
                d <= dim,
                rows == slice_views(vectors@),
                forall|i: int| 0 <= i < n ==> (#[trigger] vectors@[i])@.len() == dim,
                min@ == Seq::new(d as nat, |e: int| low_of(rows, e, n as int)),
                max@ == Seq::new(d as nat, |e: int| high_of(rows, e, n as int)),
            decreases dim - d,
        {
            let mut low: u32 = ieee::SINGLE_MAX;
            let mut high: u32 = ieee::SINGLE_MIN;
            let mut i: usize = 0;
            while i < n
                invariant
                    n == vectors@.len(),
                    i <= n,
                    d < dim,
                    rows == slice_views(vectors@),
                    forall|i: int| 0 <= i < n ==> (#[trigger] vectors@[i])@.len() == dim,
                    low == low_of(rows, d as int, i as int),
                    high == high_of(rows, d as int, i as int),
                decreases n - i,
            {
                let row = vectors[i];
                assert(rows[i as int] == row@);
                assert(row@.len() == dim);
                let v: u32 = row[d];
                if ieee::single_less(v, low) {
                    low = v;
                }
                if ieee::single_less(high, v) {
                    high = v;
                }
                i += 1;
            }
            min.push(low);
            max.push(high);
            d += 1;
            assert(min@ =~= Seq::new(d as nat, |e: int| low_of(rows, e, n as int)));
            assert(max@ =~= Seq::new(d as nat, |e: int| high_of(rows, e, n as int)));
        }
        let mut codes: Vec<Vec<u8>> = Vec::with_capacity(n);
        let mut i: usize = 0;
        while i < n
            invariant
                n == vectors@.len(),
                i <= n,
                codes@.len() == i,
                min@.len() == dim,
                max@.len() == dim,
                rows == slice_views(vectors@),
                forall|i: int| 0 <= i < n ==> (#[trigger] vectors@[i])@.len() == dim,
                forall|v: u32, lo: u32, hi: u32| #[trigger] call_requires(*quantize, (v, lo, hi)),
                forall|j: int|
                    0 <= j < i ==> quantized_by(
                        *quantize,
                        rows[j],
                        min@,
                        max@,
                        (#[trigger] codes@[j])@,
                    ),
            decreases n - i,
        {
            let row = vectors[i];
            assert(rows[i as int] == row@);
            assert(row@.len() == dim);
            let mut code: Vec<u8> = Vec::with_capacity(dim);
            let mut d: usize = 0;
            while d < dim
                invariant
                    d <= dim,
                    row@.len() == dim,
                    min@.len() == dim,
                    max@.len() == dim,
                    code@.len() == d,
                    forall|v: u32, lo: u32, hi: u32| #[trigger]
                        call_requires(*quantize, (v, lo, hi)),
                    forall|e: int|
                        0 <= e < d ==> call_ensures(
                            *quantize,
                            (row@[e], min@[e], max@[e]),
                            #[trigger] code@[e],
                        ),
                decreases dim - d,
            {
                let q: u8 = quantize(row[d], min[d], max[d]);
                code.push(q);
                d += 1;
            }
            codes.push(code);
            i += 1;
        }
        let data = Sq8Data { min, max, codes };
        assert(rows[0].len() == dim);
        assert forall|i: int| 0 <= i < rows.len() implies quantized_by(
            *quantize,
            rows[i],
            data@.min,
            data@.max,
            #[trigger] data@.codes[i],
        ) by {
            assert(data@.codes[i] == data.codes@[i]@);
        }
        data
    }

    /// The vector that a code stands for; `restore` gives the number of a byte within a range.
    pub fn dequantize<R: Fn(u8, u32, u32) -> u32>(&self, code: &[u8], restore: &R) -> (vector: Vec<
        u32,
    >)
        requires
            self.min@.len() == self.max@.len(),
            self.min@.len() <= code@.len(),
            forall|c: u8, lo: u32, hi: u32| #[trigger] call_requires(*restore, (c, lo, hi)),
        ensures
            restored_by(*restore, self@, code@, vector@),
    {
        let mut vector: Vec<u32> = Vec::with_capacity(self.min.len());
        let mut d: usize = 0;
        while d < self.min.len()
            invariant
                d <= self.min@.len(),
                self.min@.len() == self.max@.len(),
                self.min@.len() <= code@.len(),
                vector@.len() == d,
                forall|c: u8, lo: u32, hi: u32| #[trigger] call_requires(*restore, (c, lo, hi)),
                forall|e: int|
                    0 <= e < d ==> call_ensures(
                        *restore,
                        (code@[e], self.min@[e], self.max@[e]),
                        #[trigger] vector@[e],
                    ),
            decreases self.min@.len() - d,
        {
            let v: u32 = restore(code[d], self.min[d], self.max[d]);
            vector.push(v);
            d += 1;
        }
        vector
    }
}

} // verus!
