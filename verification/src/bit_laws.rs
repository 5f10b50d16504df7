//! Codes bit by bit: signs, magnitudes and the distances between them.

use crate::ieee;
use crate::number_laws;
use crate::rabitq;
use crate::rabitq::QueryQuantizedCode;
use crate::search::QueryCode;
use crate::simd;
use vstd::prelude::*;

verus! {

/// Bit `k` of a byte, the lowest one first.
pub open spec fn bit_of(x: u8, k: int) -> int {
    if k == 0 {
        (x % 2) as int
    } else if k == 1 {
        (x / 2 % 2) as int
    } else if k == 2 {
        (x / 4 % 2) as int
    } else if k == 3 {
        (x / 8 % 2) as int
    } else if k == 4 {
        (x / 16 % 2) as int
    } else if k == 5 {
        (x / 32 % 2) as int
    } else if k == 6 {
        (x / 64 % 2) as int
    } else {
        (x / 128 % 2) as int
    }
}

/// Bit `d` of a code: eight bits in each byte, the lowest first.
pub open spec fn code_bit(bits: Seq<u8>, d: int) -> int {
    bit_of(bits[d / 8], d % 8)
}

proof fn shifts_are_bits(x: u8)
    ensures
        forall|k: int| 0 <= k < 8 ==> ((#[trigger] (x >> (k as u8))) & 1 == 1 <==> bit_of(x, k) == 1),
{
    assert((x >> 0u8) & 1 == x % 2 && (x >> 1u8) & 1 == x / 2 % 2 && (x >> 2u8) & 1 == x / 4 % 2
        && (x >> 3u8) & 1 == x / 8 % 2 && (x >> 4u8) & 1 == x / 16 % 2 && (x >> 5u8) & 1 == x / 32
        % 2 && (x >> 6u8) & 1 == x / 64 % 2 && (x >> 7u8) & 1 == x / 128 % 2) by (bit_vector);
}

/// The bits of a code are read from the lowest bit of the first byte on.
pub proof fn bits_are_read(bits: Seq<u8>, d: int)
    requires
        0 <= d < 8 * bits.len(),
    ensures
        rabitq::bit_at(bits, d) <==> code_bit(bits, d) == 1,
{
    shifts_are_bits(bits[d / 8]);
    let k = d % 8;
    assert((bits[d / 8] >> (k as u8)) & 1 == 1 <==> bit_of(bits[d / 8], k) == 1);
}

/// A code of signs has one bit for each component: it is set where the component is a number of
/// zero or more.
pub proof fn signs_are_bits(bits: Seq<u8>, values: Seq<u32>)
    requires
        values.len() % 8 == 0,
        rabitq::holds_signs(bits, values),
    ensures
        8 * bits.len() == values.len(),
        forall|d: int|
            0 <= d < values.len() ==> (code_bit(bits, d) == 1 <==> !ieee::single_nan(
                #[trigger] values[d],
            ) && number_laws::single_value(values[d]) >= 0),
{
    assert forall|d: int| 0 <= d < values.len() implies (code_bit(bits, d) == 1
        <==> !ieee::single_nan(#[trigger] values[d]) && number_laws::single_value(values[d])
        >= 0) by {
        bits_are_read(bits, d);
        assert(rabitq::bit_at(bits, d) <==> rabitq::not_negative(values[d]));
        number_laws::singles_compare_by_value(values[d], 0);
        number_laws::singles_compare_by_value(0, values[d]);
        assert(number_laws::single_value(0) == 0);
    }
}

/// In how many of the first `n` bits two codes differ.
pub open spec fn differing(a: Seq<u8>, b: Seq<u8>, n: int) -> int
    decreases n,
{
    if n <= 0 {
        0
    } else {
        differing(a, b, n - 1) + if code_bit(a, n - 1) != code_bit(b, n - 1) {
            1int
        } else {
            0
        }
    }
}

proof fn ones_of_byte(z: u8)
    ensures
        simd::ones(z as nat) == bit_of(z, 0) + bit_of(z, 1) + bit_of(z, 2) + bit_of(z, 3) + bit_of(
            z,
            4,
        ) + bit_of(z, 5) + bit_of(z, 6) + bit_of(z, 7),
{
    let x = z as nat;
    reveal_with_fuel(simd::ones, 9);
    assert(x / 2 / 2 == x / 4);
    assert(x / 4 / 2 == x / 8);
    assert(x / 8 / 2 == x / 16);
    assert(x / 16 / 2 == x / 32);
    assert(x / 32 / 2 == x / 64);
    assert(x / 64 / 2 == x / 128);
    assert(x / 128 / 2 == 0);
}

proof fn xor_by_bits(x: u8, y: u8)
    ensures
        forall|k: int|
            0 <= k < 8 ==> #[trigger] bit_of(x ^ y, k) == if bit_of(x, k) != bit_of(y, k) {
                1int
            } else {
                0
            },
{
    let z = x ^ y;
    assert(z % 2 == (if x % 2 != y % 2 {
        1u8
    } else {
        0u8
    }) && z / 2 % 2 == (if x / 2 % 2 != y / 2 % 2 {
        1u8
    } else {
        0u8
    }) && z / 4 % 2 == (if x / 4 % 2 != y / 4 % 2 {
        1u8
    } else {
        0u8
    }) && z / 8 % 2 == (if x / 8 % 2 != y / 8 % 2 {
        1u8
    } else {
        0u8
    }) && z / 16 % 2 == (if x / 16 % 2 != y / 16 % 2 {
        1u8
    } else {
        0u8
    }) && z / 32 % 2 == (if x / 32 % 2 != y / 32 % 2 {
        1u8
    } else {
        0u8
    }) && z / 64 % 2 == (if x / 64 % 2 != y / 64 % 2 {
        1u8
    } else {
        0u8
    }) && z / 128 % 2 == (if x / 128 % 2 != y / 128 % 2 {
        1u8
    } else {
        0u8
    })) by (bit_vector)
        requires
            z == x ^ y,
    ;
}

proof fn differing_front(a: Seq<u8>, b: Seq<u8>, n: int)
    requires
        a.len() == b.len(),
        a.len() > 0,
        0 <= n <= 8 * (a.len() - 1),
    ensures
        differing(a.drop_last(), b.drop_last(), n) == differing(a, b, n),
    decreases n,
{
    if n > 0 {
        differing_front(a, b, n - 1);
        assert(a.drop_last()[(n - 1) / 8] == a[(n - 1) / 8]);
        assert(b.drop_last()[(n - 1) / 8] == b[(n - 1) / 8]);
    }
}

/// The distance of two codes is the number of bits in which they differ.
#[verifier::rlimit(60)]
#[verifier::spinoff_prover]
pub proof fn distance_counts_bits(a: Seq<u8>, b: Seq<u8>)
    requires
        a.len() == b.len(),
    ensures
        simd::hamming(a, b) == differing(a, b, 8 * a.len() as int),
    decreases a.len(),
{
    if a.len() > 0 {
        let n = 8 * (a.len() - 1);
        distance_counts_bits(a.drop_last(), b.drop_last());
        differing_front(a, b, n);
        let (x, y) = (a.last(), b.last());
        ones_of_byte(x ^ y);
        xor_by_bits(x, y);
        reveal_with_fuel(differing, 9);
        let l = a.len() - 1;
        assert(bit_of(x ^ y, 0) + bit_of(x ^ y, 1) + bit_of(x ^ y, 2) + bit_of(x ^ y, 3) + bit_of(
            x ^ y,
            4,
        ) + bit_of(x ^ y, 5) + bit_of(x ^ y, 6) + bit_of(x ^ y, 7) == differing(a, b, n + 8)
            - differing(a, b, n)) by {
            assert(code_bit(a, n) == bit_of(x, 0) && code_bit(b, n) == bit_of(y, 0));
            assert(code_bit(a, n + 1) == bit_of(x, 1) && code_bit(b, n + 1) == bit_of(y, 1));
            assert(code_bit(a, n + 2) == bit_of(x, 2) && code_bit(b, n + 2) == bit_of(y, 2));
            assert(code_bit(a, n + 3) == bit_of(x, 3) && code_bit(b, n + 3) == bit_of(y, 3));
            assert(code_bit(a, n + 4) == bit_of(x, 4) && code_bit(b, n + 4) == bit_of(y, 4));
            assert(code_bit(a, n + 5) == bit_of(x, 5) && code_bit(b, n + 5) == bit_of(y, 5));
            assert(code_bit(a, n + 6) == bit_of(x, 6) && code_bit(b, n + 6) == bit_of(y, 6));
            assert(code_bit(a, n + 7) == bit_of(x, 7) && code_bit(b, n + 7) == bit_of(y, 7));
        }
    }
}

/// The magnitude of dimension `d`, with `bq` bits for each dimension and the first lowest in its
/// byte.
pub open spec fn magnitude_of(quantized: Seq<u8>, bq: u8, d: int) -> int {
    if bq == 1 {
        code_bit(quantized, d)
    } else if bq == 2 {
        code_bit(quantized, 2 * d) + 2 * code_bit(quantized, 2 * d + 1)
    } else if bq == 4 {
        code_bit(quantized, 4 * d) + 2 * code_bit(quantized, 4 * d + 1) + 4 * code_bit(
            quantized,
            4 * d + 2,
        ) + 8 * code_bit(quantized, 4 * d + 3)
    } else {
        quantized[d] as int
    }
}

/// The magnitudes of a code are its bits, `bq` for each dimension.
pub proof fn magnitudes_are_bits(quantized: Seq<u8>, bq: u8, d: int)
    requires
        rabitq::cuts_byte(bq),
        0 <= d,
        d * bq < 8 * quantized.len(),
    ensures
        rabitq::packed_value(quantized, bq, d) == magnitude_of(quantized, bq, d),
{
    if bq == 1 {
        let x = quantized[d / 8];
        assert((x >> 0u8) & 1 == x % 2 && (x >> 1u8) & 1 == x / 2 % 2 && (x >> 2u8) & 1 == x / 4 % 2
            && (x >> 3u8) & 1 == x / 8 % 2 && (x >> 4u8) & 1 == x / 16 % 2 && (x >> 5u8) & 1 == x
            / 32 % 2 && (x >> 6u8) & 1 == x / 64 % 2 && (x >> 7u8) & 1 == x / 128 % 2)
            by (bit_vector);
    } else if bq == 2 {
        let x = quantized[d / 4];
        assert((x >> 0u8) & 3 == x % 2 + 2 * (x / 2 % 2) && (x >> 2u8) & 3 == x / 4 % 2 + 2 * (x / 8
            % 2) && (x >> 4u8) & 3 == x / 16 % 2 + 2 * (x / 32 % 2) && (x >> 6u8) & 3 == x / 64 % 2
            + 2 * (x / 128 % 2)) by (bit_vector);
        assert(2 * d / 8 == d / 4 && (2 * d + 1) / 8 == d / 4);
        assert(2 * d % 8 == 2 * (d % 4) && (2 * d + 1) % 8 == 2 * (d % 4) + 1);
    } else if bq == 4 {
        let x = quantized[d / 2];
        assert((x >> 0u8) & 15 == x % 2 + 2 * (x / 2 % 2) + 4 * (x / 4 % 2) + 8 * (x / 8 % 2) && (x
            >> 4u8) & 15 == x / 16 % 2 + 2 * (x / 32 % 2) + 4 * (x / 64 % 2) + 8 * (x / 128 % 2))
            by (bit_vector);
        assert(4 * d / 8 == d / 2 && (4 * d + 1) / 8 == d / 2 && (4 * d + 2) / 8 == d / 2 && (4 * d
            + 3) / 8 == d / 2);
        assert(4 * d % 8 == 4 * (d % 2) && (4 * d + 1) % 8 == 4 * (d % 2) + 1 && (4 * d + 2) % 8
            == 4 * (d % 2) + 2 && (4 * d + 3) % 8 == 4 * (d % 2) + 3);
    }
}

/// The sum of the magnitudes of the first `n` dimensions whose bit is set in a code.
pub open spec fn sum_where_set(bits: Seq<u8>, quantized: Seq<u8>, bq: u8, n: int) -> int
    decreases n,
{
    if n <= 0 {
        0
    } else {
        sum_where_set(bits, quantized, bq, n - 1) + code_bit(bits, n - 1) * magnitude_of(
            quantized,
            bq,
            n - 1,
        )
    }
}

/// What a query reads of a code: in how many signs they differ, or the sum of the magnitudes of the
/// query where the sign of the code is set.
pub proof fn readings_mean(query: QueryCode, dim: int, bits: Seq<u8>)
    requires
        query.fits(dim),
        dim % 64 == 0,
        0 <= dim,
        bits.len() == dim / 8,
    ensures
        query.reading(dim, bits) == match query {
            QueryCode::Signs(code) => differing(code.bits@, bits, dim),
            QueryCode::Quantized(code) => sum_where_set(bits, code.quantized@, code.bq, dim),
        },
{
    match query {
        QueryCode::Signs(code) => {
            distance_counts_bits(code.bits@, bits);
        },
        QueryCode::Quantized(code) => {
            sums_are_masked(bits, code, dim, dim);
        },
    }
}

proof fn bit_is_small(x: u8, k: int)
    ensures
        bit_of(x, k) == 0 || bit_of(x, k) == 1,
{
}

proof fn room_for(code: QueryQuantizedCode, dim: int, d: int)
    requires
        code.has_dims(dim),
        dim % 64 == 0,
        0 <= d < dim,
    ensures
        d * code.bq < 8 * code.quantized@.len(),
{
    let n = code.quantized@.len() as int;
    if code.bq == 1 {
        assert(d * 1 < 8 * n);
    } else if code.bq == 2 {
        assert(d * 2 < 8 * n);
    } else if code.bq == 4 {
        assert(d * 4 < 8 * n);
    } else {
        assert(d * 8 < 8 * n);
    }
}

proof fn sums_are_masked(bits: Seq<u8>, code: QueryQuantizedCode, dim: int, n: int)
    requires
        code.has_dims(dim),
        dim % 64 == 0,
        0 <= n <= dim,
        bits.len() == dim / 8,
    ensures
        rabitq::masked_sum(bits, code.quantized@, code.bq, n) == sum_where_set(
            bits,
            code.quantized@,
            code.bq,
            n,
        ),
    decreases n,
{
    if n > 0 {
        sums_are_masked(bits, code, dim, n - 1);
        bits_are_read(bits, n - 1);
        room_for(code, dim, n - 1);
        magnitudes_are_bits(code.quantized@, code.bq, n - 1);
        let (b, v) = (code_bit(bits, n - 1), magnitude_of(code.quantized@, code.bq, n - 1));
        bit_is_small(bits[(n - 1) / 8], (n - 1) % 8);
        assert(b * v == if b == 1 {
            v
        } else {
            0
        }) by (nonlinear_arith)
            requires
                b == 0 || b == 1,
        ;
    }
}

} // verus!
