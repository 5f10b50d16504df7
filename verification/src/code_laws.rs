//! What holds of the code of a query with several bits per dimension.

use crate::ieee;
use crate::rabitq::{Code, QueryQuantizedCode};
use crate::rabitq;
use crate::search_pairs;
use vstd::prelude::*;

verus! {

/// The sum of the magnitudes of the first `n` dimensions.
pub open spec fn packed_sum(quantized: Seq<u8>, bq: u8, n: int) -> int
    decreases n,
{
    if n <= 0 {
        0
    } else {
        packed_sum(quantized, bq, n - 1) + rabitq::packed_value(quantized, bq, n - 1)
    }
}

/// A code holds magnitudes of `bq` bits, none above the largest one, and their sum.
pub proof fn magnitudes_are_packed(
    code: QueryQuantizedCode,
    rotated: Seq<u32>,
    magnitudes: Seq<u8>,
    bq: u8,
)
    requires
        code.packs(rotated, magnitudes, bq),
    ensures
        code.bq == bq,
        code.quantized@.len() == rotated.len() as int / rabitq::per_byte(bq),
        forall|d: int|
            0 <= d < rotated.len() ==> #[trigger] rabitq::packed_value(code.quantized@, bq, d)
                <= rabitq::top_level(bq),
        code.total_sum == packed_sum(code.quantized@, bq, rotated.len() as int),
{
    sums_agree(code.quantized@, magnitudes, bq, rotated.len() as int);
}

proof fn sums_agree(quantized: Seq<u8>, magnitudes: Seq<u8>, bq: u8, n: int)
    requires
        forall|d: int|
            0 <= d < n ==> #[trigger] rabitq::packed_value(quantized, bq, d) == rabitq::capped(
                magnitudes[d],
                bq,
            ),
    ensures
        packed_sum(quantized, bq, n) == rabitq::capped_sum(magnitudes, bq, n),
    decreases n,
{
    if n > 0 {
        sums_agree(quantized, magnitudes, bq, n - 1);
        assert(rabitq::packed_value(quantized, bq, n - 1) == rabitq::capped(
            magnitudes[n - 1],
            bq,
        ));
    }
}

/// Two bytes with the same eight bits are equal.
proof fn same_bits_same_byte(x: u8, y: u8)
    requires
        forall|k: u8| k < 8 ==> (#[trigger] (x >> k) & 1 == 1 <==> (y >> k) & 1 == 1),
    ensures
        x == y,
{
    assert((x >> 0u8) & 1 == 1 <==> (y >> 0u8) & 1 == 1);
    assert((x >> 1u8) & 1 == 1 <==> (y >> 1u8) & 1 == 1);
    assert((x >> 2u8) & 1 == 1 <==> (y >> 2u8) & 1 == 1);
    assert((x >> 3u8) & 1 == 1 <==> (y >> 3u8) & 1 == 1);
    assert((x >> 4u8) & 1 == 1 <==> (y >> 4u8) & 1 == 1);
    assert((x >> 5u8) & 1 == 1 <==> (y >> 5u8) & 1 == 1);
    assert((x >> 6u8) & 1 == 1 <==> (y >> 6u8) & 1 == 1);
    assert((x >> 7u8) & 1 == 1 <==> (y >> 7u8) & 1 == 1);
    assert(x == y) by (bit_vector)
        requires
            ((x >> 0u8) & 1 == 1) == ((y >> 0u8) & 1 == 1),
            ((x >> 1u8) & 1 == 1) == ((y >> 1u8) & 1 == 1),
            ((x >> 2u8) & 1 == 1) == ((y >> 2u8) & 1 == 1),
            ((x >> 3u8) & 1 == 1) == ((y >> 3u8) & 1 == 1),
            ((x >> 4u8) & 1 == 1) == ((y >> 4u8) & 1 == 1),
            ((x >> 5u8) & 1 == 1) == ((y >> 5u8) & 1 == 1),
            ((x >> 6u8) & 1 == 1) == ((y >> 6u8) & 1 == 1),
            ((x >> 7u8) & 1 == 1) == ((y >> 7u8) & 1 == 1),
    ;
}

/// The signs of a vector are packed in one way.
pub proof fn signs_are_packed_in_one_way(a: Seq<u8>, b: Seq<u8>, values: Seq<u32>)
    requires
        values.len() % 8 == 0,
        rabitq::holds_signs(a, values),
        rabitq::holds_signs(b, values),
    ensures
        a == b,
{
    assert forall|i: int| 0 <= i < a.len() implies a[i] == b[i] by {
        let (x, y) = (a[i], b[i]);
        assert forall|k: u8| k < 8 implies (#[trigger] (x >> k) & 1 == 1 <==> (y >> k) & 1 == 1) by {
            let d = 8 * i + k;
            assert(d / 8 == i && d % 8 == k);
            assert(rabitq::bit_at(a, d) <==> rabitq::not_negative(values[d]));
            assert(rabitq::bit_at(b, d) <==> rabitq::not_negative(values[d]));
        }
        same_bits_same_byte(x, y);
    }
    assert(a =~= b);
}

/// The magnitude of the number with the largest absolute value is the largest there is.
pub open spec fn grades_the_largest<L: Fn(u32, u32, u8) -> u8>(level: L) -> bool {
    forall|v: u32, top: u32, highest: u8, m: u8|
        rabitq::absolute(v) == top && top > 0 && #[trigger] call_ensures(
            level,
            (v, top, highest),
            m,
        ) ==> m >= highest
}

/// The squared norm that is part of the corrections is that of the norm function.
pub open spec fn norms_agree<N: Fn(&Vec<u32>) -> u32, C: Fn(&Vec<u32>, u32) -> (u32, u32)>(
    norm: N,
    corrections: C,
) -> bool {
    forall|r: Vec<u32>, w: Vec<u32>, e: u32, a: (u32, u32), n: u32|
        #![trigger call_ensures(corrections, (&r, e), a), call_ensures(norm, (&w,), n)]
        r@ == w@ && call_ensures(corrections, (&r, e), a) && call_ensures(norm, (&w,), n) ==> a.0
            == n
}

/// `d` is a dimension with the largest absolute value, and that is more than zero.
pub open spec fn is_farthest(values: Seq<u32>, d: int) -> bool {
    &&& 0 <= d < values.len()
    &&& !ieee::single_nan(values[d])
    &&& rabitq::absolute(values[d]) > 0
    &&& forall|e: int|
        0 <= e < values.len() && !ieee::single_nan(#[trigger] values[e]) ==> rabitq::absolute(
            values[e],
        ) <= rabitq::absolute(values[d])
}

/// The code of a query with `bq` bits per dimension has the signs and the squared norm of the code
/// with one, a magnitude of `bq` bits for each dimension, the largest one where the rotated query is
/// largest, and the sum of the magnitudes.
pub proof fn quantized_code_is_sound<
    R: Fn(&Vec<u32>, &Vec<u32>) -> Vec<u32>,
    C: Fn(&Vec<u32>, u32) -> (u32, u32),
    N: Fn(&Vec<u32>) -> u32,
    S: Fn(u32, u8) -> u32,
    L: Fn(u32, u32, u8) -> u8,
>(
    rotate: R,
    corrections: C,
    norm: N,
    step: S,
    level: L,
    rotation: Vec<u32>,
    epsilon_0: u32,
    vector: Vec<u32>,
    rotated: Vec<u32>,
    bq: u8,
    code: QueryQuantizedCode,
    signs: Code,
)
    requires
        rabitq::cuts_byte(bq),
        vector@.len() % 8 == 0,
        rotation@.len() == vector@.len() * vector@.len(),
        rabitq::keeps_dim(rotate),
        search_pairs::one_rotation(rotate),
        norms_agree(norm, corrections),
        grades_the_largest(level),
        call_ensures(rotate, (&rotation, &vector), rotated),
        rabitq::quantized_by(rotate, norm, step, level, rotation, vector, bq, code),
        rabitq::encoded_by(rotate, corrections, rotation, epsilon_0, vector, signs),
    ensures
        code.bits@ == signs.bits,
        code.alpha == signs.alpha,
        code.bq == bq,
        code.quantized@.len() == vector@.len() as int / rabitq::per_byte(bq),
        forall|d: int|
            0 <= d < vector@.len() ==> #[trigger] rabitq::packed_value(code.quantized@, bq, d)
                <= rabitq::top_level(bq),
        forall|d: int| #[trigger]
            is_farthest(rotated@, d) ==> rabitq::packed_value(code.quantized@, bq, d)
                == rabitq::top_level(bq),
        code.total_sum == packed_sum(code.quantized@, bq, vector@.len() as int),
{
    let (r, top, magnitudes) = choose|r: Vec<u32>, top: u32, magnitudes: Seq<u8>|
        {
            &&& #[trigger] call_ensures(rotate, (&rotation, &vector), r)
            &&& call_ensures(norm, (&r,), code.alpha)
            &&& #[trigger] rabitq::graded(step, level, r@, top, bq, code.scale, magnitudes)
            &&& code.packs(r@, magnitudes, bq)
        };
    let s = choose|s: Vec<u32>|
        {
            &&& #[trigger] call_ensures(rotate, (&rotation, &vector), s)
            &&& rabitq::holds_signs(signs.bits, s@)
            &&& call_ensures(corrections, (&s, epsilon_0), (signs.alpha, signs.beta))
        };
    assert(r@ == rotated@ && s@ == rotated@);
    assert(r@.len() == vector@.len());
    magnitudes_are_packed(code, r@, magnitudes, bq);
    signs_are_packed_in_one_way(code.bits@, signs.bits, rotated@);
    assert forall|d: int| #[trigger] is_farthest(rotated@, d) implies rabitq::packed_value(
        code.quantized@,
        bq,
        d,
    ) == rabitq::top_level(bq) by {
        assert(rabitq::absolute(r@[d]) <= top);
        let e = choose|e: int|
            0 <= e < r@.len() && !ieee::single_nan(#[trigger] r@[e]) && rabitq::absolute(r@[e])
                == top;
        assert(rabitq::absolute(r@[e]) <= rabitq::absolute(r@[d]));
        assert(call_ensures(level, (r@[d], top, rabitq::top_level(bq) as u8), magnitudes[d]));
        assert(rabitq::packed_value(code.quantized@, bq, d) == rabitq::capped(magnitudes[d], bq));
    }
}

} // verus!
