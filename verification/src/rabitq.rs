//! RaBitQ codes: one sign bit per dimension, and query codes of a few bits per dimension.

use crate::ieee;
use crate::simd;
use vstd::prelude::*;

verus! {

/// Bits of the single precision number 1.9.
pub const EPSILON_0: u32 = 0x3FF3_3333;

/// The configuration of a quantizer.
#[derive(Debug, Clone, Copy)]
pub struct RabitqConfig {
    /// The dimension of the vectors, a multiple of 64.
    pub dim: usize,
    /// How many bits per dimension a query code has by default.
    pub num_bits: usize,
    /// The bits of the constant that keeps normalized vectors away from the sphere: the corrections
    /// of every code are worked out with it.
    pub epsilon_0: u32,
}

/// The configuration that vectors of a dimension have by default: query codes of four bits and
/// `EPSILON_0`.
pub open spec fn default_config(dim: usize) -> RabitqConfig {
    RabitqConfig { dim, num_bits: 4, epsilon_0: EPSILON_0 }
}

impl RabitqConfig {
    /// The configuration for vectors of a dimension.
    pub fn new(dim: usize) -> (config: Self)
        requires
            dim % 64 == 0,
        ensures
            config.dim == dim,
            config.num_bits == 4,
            config.epsilon_0 == EPSILON_0,
    {
        RabitqConfig { dim, num_bits: 4, epsilon_0: EPSILON_0 }
    }

    /// How many bytes the sign bits of a vector take.
    pub fn code_bytes(&self) -> (n: usize)
        ensures
            n == self.dim / 8,
    {
        self.dim / 8
    }
}

/// The code of one vector.
#[derive(Debug)]
pub struct RabitqCode {
    /// The signs, one bit per dimension, the first dimension lowest.
    pub bits: Vec<u8>,
    /// The bits of the squared norm.
    pub alpha: u32,
    /// The bits of the factor that corrects the loss of magnitude.
    pub beta: u32,
}

/// The model of a `RabitqCode`.
#[verifier::ext_equal]
pub struct Code {
    pub bits: Seq<u8>,
    pub alpha: u32,
    pub beta: u32,
}

impl View for RabitqCode {
    type V = Code;

    open spec fn view(&self) -> Code {
        Code { bits: self.bits@, alpha: self.alpha, beta: self.beta }
    }
}

/// Bit `d` of packed bits, the first bit lowest in the first byte.
pub open spec fn bit_at(bits: Seq<u8>, d: int) -> bool {
    (bits[d / 8] >> ((d % 8) as u8)) & 1 == 1
}

/// A number is zero or more.
pub open spec fn not_negative(bits: u32) -> bool {
    !ieee::single_nan(bits) && ieee::single_rank(bits) >= 0
}

/// `bits` holds the signs of `values`: a bit is set exactly where the number is zero or more.
pub open spec fn holds_signs(bits: Seq<u8>, values: Seq<u32>) -> bool {
    &&& bits.len() == values.len() / 8
    &&& forall|d: int|
        0 <= d < values.len() ==> (#[trigger] bit_at(bits, d) <==> not_negative(values[d]))
}

proof fn set_bit(byte: u8, k: u8, j: u8)
    requires
        k < 8,
        j < 8,
    ensures
        ((byte | (1u8 << k)) >> j) & 1 == 1 <==> (j == k || (byte >> j) & 1 == 1),
{
    assert(((byte | (1u8 << k)) >> j) & 1 == 1 <==> (j == k || (byte >> j) & 1 == 1)) by (bit_vector)
        requires
            k < 8,
            j < 8,
    ;
}

proof fn zero_has_no_bits(j: u8)
    requires
        j < 8,
    ensures
        (0u8 >> j) & 1 != 1,
{
    assert((0u8 >> j) & 1 != 1) by (bit_vector);
}

/// The signs of the numbers, packed.
pub fn pack_signs(values: &[u32]) -> (bits: Vec<u8>)
    requires
        values@.len() % 8 == 0,
    ensures
        holds_signs(bits@, values@),
{
    let n: usize = values.len();
    let mut bits: Vec<u8> = vec![0u8; n / 8];
    let mut d: usize = 0;
    proof {
        assert forall|e: int| 0 <= e < n implies !(#[trigger] bit_at(bits@, e)) by {
            zero_has_no_bits((e % 8) as u8);
        }
    }
    while d < n
        invariant
            n == values@.len(),
            n % 8 == 0,
            d <= n,
            bits@.len() == n / 8,
            forall|e: int|
                0 <= e < d ==> (#[trigger] bit_at(bits@, e) <==> not_negative(values@[e])),
            forall|e: int| d <= e < n ==> !(#[trigger] bit_at(bits@, e)),
        decreases n - d,
    {
        let v: u32 = values[d];
        if !ieee::single_is_nan(v) && ieee::single_key(v) >= 0 {
            let at: usize = d / 8;
            let k: u8 = (d % 8) as u8;
            let byte: u8 = bits[at];
            let ghost before = bits@;
            bits.set(at, byte | (1u8 << k));
            proof {
                assert forall|e: int| 0 <= e < n implies (#[trigger] bit_at(bits@, e) <==> (e == d
                    || bit_at(before, e))) by {
                    if e / 8 == at {
                        set_bit(byte, k, (e % 8) as u8);
                    }
                }
            }
        }
        d += 1;
    }
    bits
}

/// The code of a query with a few bits per dimension.
#[derive(Debug)]
pub struct QueryQuantizedCode {
    /// The signs, one bit per dimension.
    pub bits: Vec<u8>,
    /// The bits of the squared norm.
    pub alpha: u32,
    /// The bits of the step between two magnitudes.
    pub scale: u32,
    /// The magnitudes, `bq` bits per dimension, the first dimension lowest.
    pub quantized: Vec<u8>,
    /// How many bits a magnitude has: 1, 2, 4 or 8.
    pub bq: u8,
    /// The sum of all magnitudes.
    pub total_sum: u64,
}

/// The numbers of bits that a byte can be cut into.
pub open spec fn cuts_byte(bq: u8) -> bool {
    bq == 1 || bq == 2 || bq == 4 || bq == 8
}

/// How many dimensions share a byte.
pub open spec fn per_byte(bq: u8) -> int {
    if bq == 1 {
        8
    } else if bq == 2 {
        4
    } else if bq == 4 {
        2
    } else {
        1
    }
}

/// The largest magnitude.
pub open spec fn top_level(bq: u8) -> int {
    if bq == 1 {
        1
    } else if bq == 2 {
        3
    } else if bq == 4 {
        15
    } else {
        255
    }
}

/// The bits of one dimension within a byte.
pub open spec fn cut(byte: u8, bq: u8, slot: int) -> u8 {
    if bq == 8 {
        byte
    } else if bq == 4 {
        (byte >> ((4 * slot) as u8)) & 15
    } else if bq == 2 {
        (byte >> ((2 * slot) as u8)) & 3
    } else {
        (byte >> (slot as u8)) & 1
    }
}

/// The magnitude of dimension `d` in packed magnitudes.
pub open spec fn packed_value(quantized: Seq<u8>, bq: u8, d: int) -> u8 {
    cut(quantized[d / per_byte(bq)], bq, d % per_byte(bq))
}

/// The largest magnitude of a number of bits.
pub fn levels(bq: u8) -> (top: u8)
    requires
        cuts_byte(bq),
    ensures
        top == top_level(bq),
{
    if bq == 1 {
        1
    } else if bq == 2 {
        3
    } else if bq == 4 {
        15
    } else {
        255
    }
}

/// How many dimensions share a byte.
fn byte_share(bq: u8) -> (n: usize)
    requires
        cuts_byte(bq),
    ensures
        n == per_byte(bq),
{
    if bq == 1 {
        8
    } else if bq == 2 {
        4
    } else if bq == 4 {
        2
    } else {
        1
    }
}

/// The bits of one dimension within a byte.
fn cut_byte(byte: u8, bq: u8, slot: usize) -> (v: u8)
    requires
        cuts_byte(bq),
        slot < per_byte(bq),
    ensures
        v == cut(byte, bq, slot as int),
{
    if bq == 8 {
        byte
    } else if bq == 4 {
        (byte >> (4 * slot as u8)) & 15
    } else if bq == 2 {
        (byte >> (2 * slot as u8)) & 3
    } else {
        (byte >> (slot as u8)) & 1
    }
}

/// Putting a magnitude into an empty slot sets that slot and leaves the others.
proof fn put_then_cut(byte: u8, bq: u8, v: u8, slot: int, other: int)
    requires
        cuts_byte(bq),
        v <= top_level(bq),
        0 <= slot < per_byte(bq),
        0 <= other < per_byte(bq),
        cut(byte, bq, slot) == 0,
    ensures
        cut(byte | put(bq, v, slot), bq, other) == if other == slot {
            v
        } else {
            cut(byte, bq, other)
        },
{
    if bq == 8 {
        assert(slot == 0 && other == 0);
        assert(0u8 | v == v) by (bit_vector);
    } else if bq == 4 {
        let (s, o) = ((4 * slot) as u8, (4 * other) as u8);
        assert(((byte | (v << s)) >> o) & 15 == if o == s {
            v
        } else {
            (byte >> o) & 15
        }) by (bit_vector)
            requires
                (s == 0 || s == 4) && (o == 0 || o == 4) && v <= 15 && (byte >> s) & 15 == 0,
        ;
    } else if bq == 2 {
        let (s, o) = ((2 * slot) as u8, (2 * other) as u8);
        assert(((byte | (v << s)) >> o) & 3 == if o == s {
            v
        } else {
            (byte >> o) & 3
        }) by (bit_vector)
            requires
                (s == 0 || s == 2 || s == 4 || s == 6) && (o == 0 || o == 2 || o == 4 || o == 6) && v
                    <= 3 && (byte >> s) & 3 == 0,
        ;
    } else {
        let (s, o) = (slot as u8, other as u8);
        assert(((byte | (v << s)) >> o) & 1 == if o == s {
            v
        } else {
            (byte >> o) & 1
        }) by (bit_vector)
            requires
                s < 8 && o < 8 && v <= 1 && (byte >> s) & 1 == 0,
        ;
    }
}

/// A magnitude in its slot of an otherwise empty byte.
spec fn put(bq: u8, v: u8, slot: int) -> u8 {
    if bq == 8 {
        v
    } else if bq == 4 {
        v << ((4 * slot) as u8)
    } else if bq == 2 {
        v << ((2 * slot) as u8)
    } else {
        v << (slot as u8)
    }
}

/// A magnitude in its slot of an otherwise empty byte.
fn put_byte(bq: u8, v: u8, slot: usize) -> (r: u8)
    requires
        cuts_byte(bq),
        slot < per_byte(bq),
    ensures
        r == put(bq, v, slot as int),
{
    if bq == 8 {
        v
    } else if bq == 4 {
        v << (4 * slot as u8)
    } else if bq == 2 {
        v << (2 * slot as u8)
    } else {
        v << (slot as u8)
    }
}

proof fn zero_cuts_to_zero(bq: u8, slot: int)
    requires
        cuts_byte(bq),
        0 <= slot < per_byte(bq),
    ensures
        cut(0, bq, slot) == 0,
{
    if bq == 4 {
        let s = (4 * slot) as u8;
        assert((0u8 >> s) & 15 == 0) by (bit_vector);
    } else if bq == 2 {
        let s = (2 * slot) as u8;
        assert((0u8 >> s) & 3 == 0) by (bit_vector);
    } else if bq == 1 {
        let s = slot as u8;
        assert((0u8 >> s) & 1 == 0) by (bit_vector);
    }
}

/// A magnitude that does not exceed the largest one.
pub open spec fn capped(v: u8, bq: u8) -> int {
    if v <= top_level(bq) {
        v as int
    } else {
        top_level(bq)
    }
}

/// The sum of the first `n` magnitudes, each capped.
pub open spec fn capped_sum(values: Seq<u8>, bq: u8, n: int) -> int
    decreases n,
{
    if n <= 0 {
        0
    } else {
        capped_sum(values, bq, n - 1) + capped(values[n - 1], bq)
    }
}

proof fn capped_sum_bound(values: Seq<u8>, bq: u8, n: int)
    requires
        0 <= n,
    ensures
        0 <= capped_sum(values, bq, n) <= 255 * n,
    decreases n,
{
    if n > 0 {
        capped_sum_bound(values, bq, n - 1);
    }
}

impl QueryQuantizedCode {
    /// The code has a magnitude for each of `dim` dimensions.
    pub open spec fn has_dims(&self, dim: int) -> bool {
        &&& cuts_byte(self.bq)
        &&& self.quantized@.len() == dim / per_byte(self.bq)
    }

    /// The code holds the signs of a rotated query and the magnitudes of its dimensions, each at
    /// most the largest one, in `bq` bits.
    pub open spec fn packs(&self, rotated: Seq<u32>, magnitudes: Seq<u8>, bq: u8) -> bool {
        &&& holds_signs(self.bits@, rotated)
        &&& self.bq == bq
        &&& self.has_dims(rotated.len() as int)
        &&& forall|d: int|
            0 <= d < rotated.len() ==> #[trigger] packed_value(self.quantized@, bq, d) == capped(
                magnitudes[d],
                bq,
            )
        &&& self.total_sum == capped_sum(magnitudes, bq, rotated.len() as int)
    }

    /// How many dimensions share a byte.
    pub fn dims_per_byte(&self) -> (n: usize)
        requires
            cuts_byte(self.bq),
        ensures
            n == per_byte(self.bq),
    {
        byte_share(self.bq)
    }

    /// The magnitude of dimension `d`.
    pub fn value(&self, d: usize) -> (v: u8)
        requires
            cuts_byte(self.bq),
            (d as int) / per_byte(self.bq) < self.quantized@.len(),
        ensures
            v == packed_value(self.quantized@, self.bq, d as int),
    {
        let n: usize = self.dims_per_byte();
        cut_byte(self.quantized[d / n], self.bq, d % n)
    }

    /// Packs the code of a rotated query from the magnitudes of its dimensions.
    ///
    /// `magnitudes` holds the rounded quotients of the absolute values and the step `scale`; one
    /// beyond the largest magnitude is taken as the largest.
    pub fn pack(rotated: &[u32], magnitudes: &[u8], bq: u8, alpha: u32, scale: u32) -> (code: Self)
        requires
            cuts_byte(bq),
            rotated@.len() % 8 == 0,
            magnitudes@.len() == rotated@.len(),
            255 * rotated@.len() <= u64::MAX,
        ensures
            code.packs(rotated@, magnitudes@, bq),
            code.alpha == alpha,
            code.scale == scale,
    {
        let bits = pack_signs(rotated);
        let (quantized, total_sum) = pack_magnitudes(magnitudes, bq);
        QueryQuantizedCode { bits, alpha, scale, quantized, bq, total_sum }
    }
}

/// The slot of a dimension exists.
proof fn slot_exists(n: int, bq: u8, d: int)
    requires
        cuts_byte(bq),
        n % 8 == 0,
        0 <= d < n,
    ensures
        0 <= d / per_byte(bq) < n / per_byte(bq),
        0 <= d % per_byte(bq) < per_byte(bq),
        d / per_byte(bq) * per_byte(bq) + d % per_byte(bq) == d,
{
    if bq == 1 {
        assert(d / 8 < n / 8);
    } else if bq == 2 {
        assert(d / 4 < n / 4);
    } else if bq == 4 {
        assert(d / 2 < n / 2);
    } else {
        assert(d / 1 == d && n / 1 == n);
    }
}

/// Putting a magnitude into the empty slot of dimension `d` sets that dimension and leaves the
/// others.
proof fn put_sets_one(before: Seq<u8>, bq: u8, d: int, v: u8, n: int, e: int)
    requires
        cuts_byte(bq),
        n % 8 == 0,
        before.len() == n / per_byte(bq),
        0 <= d < n,
        0 <= e < n,
        v <= top_level(bq),
        packed_value(before, bq, d) == 0,
    ensures
        packed_value(
            before.update(
                d / per_byte(bq),
                before[d / per_byte(bq)] | put(bq, v, d % per_byte(bq)),
            ),
            bq,
            e,
        ) == if e == d {
            v
        } else {
            packed_value(before, bq, e)
        },
{
    slot_exists(n, bq, d);
    slot_exists(n, bq, e);
    let at = d / per_byte(bq);
    if e / per_byte(bq) == at {
        put_then_cut(before[at], bq, v, d % per_byte(bq), e % per_byte(bq));
    }
}

/// Packs magnitudes, each capped at the largest one, and adds them up.
fn pack_magnitudes(magnitudes: &[u8], bq: u8) -> (r: (Vec<u8>, u64))
    requires
        cuts_byte(bq),
        magnitudes@.len() % 8 == 0,
        255 * magnitudes@.len() <= u64::MAX,
    ensures
        r.0@.len() == magnitudes@.len() as int / per_byte(bq),
        forall|d: int|
            0 <= d < magnitudes@.len() ==> #[trigger] packed_value(r.0@, bq, d) == capped(
                magnitudes@[d],
                bq,
            ),
        r.1 == capped_sum(magnitudes@, bq, magnitudes@.len() as int),
{
    let n: usize = magnitudes.len();
    let share: usize = byte_share(bq);
    let top: u8 = levels(bq);
    let mut quantized: Vec<u8> = vec![0u8; n / share];
    let mut total_sum: u64 = 0;
    let mut d: usize = 0;
    proof {
        assert forall|e: int| 0 <= e < n implies #[trigger] packed_value(quantized@, bq, e) == 0 by {
            slot_exists(n as int, bq, e);
            zero_cuts_to_zero(bq, e % per_byte(bq));
        }
    }
    while d < n
        invariant
            n == magnitudes@.len(),
            n % 8 == 0,
            255 * n <= u64::MAX,
            cuts_byte(bq),
            share == per_byte(bq),
            top == top_level(bq),
            d <= n,
            quantized@.len() == n as int / per_byte(bq),
            total_sum == capped_sum(magnitudes@, bq, d as int),
            forall|e: int|
                0 <= e < d ==> #[trigger] packed_value(quantized@, bq, e) == capped(
                    magnitudes@[e],
                    bq,
                ),
            forall|e: int| d <= e < n ==> #[trigger] packed_value(quantized@, bq, e) == 0,
        decreases n - d,
    {
        let v: u8 = if magnitudes[d] <= top {
            magnitudes[d]
        } else {
            top
        };
        proof {
            capped_sum_bound(magnitudes@, bq, d as int);
            slot_exists(n as int, bq, d as int);
        }
        total_sum += v as u64;
        let at: usize = d / share;
        let slot: usize = d % share;
        let ghost before = quantized@;
        assert(packed_value(before, bq, d as int) == 0);
        let byte: u8 = quantized[at] | put_byte(bq, v, slot);
        quantized.set(at, byte);
        proof {
            assert(quantized@ == before.update(
                d as int / per_byte(bq),
                before[d as int / per_byte(bq)] | put(bq, v, d as int % per_byte(bq)),
            ));
            assert forall|e: int| 0 <= e < n implies #[trigger] packed_value(quantized@, bq, e)
                == if e == d {
                v
            } else {
                packed_value(before, bq, e)
            } by {
                put_sets_one(before, bq, d as int, v, n as int, e);
            }
        }
        d += 1;
    }
    (quantized, total_sum)
}

/// The sum of the magnitudes of the first `n` dimensions whose sign bit is set in `bits`.
pub open spec fn masked_sum(bits: Seq<u8>, quantized: Seq<u8>, bq: u8, n: int) -> int
    decreases n,
{
    if n <= 0 {
        0
    } else {
        masked_sum(bits, quantized, bq, n - 1) + if bit_at(bits, n - 1) {
            packed_value(quantized, bq, n - 1) as int
        } else {
            0
        }
    }
}

proof fn masked_sum_bound(bits: Seq<u8>, quantized: Seq<u8>, bq: u8, n: int)
    requires
        0 <= n,
    ensures
        0 <= masked_sum(bits, quantized, bq, n) <= 255 * n,
    decreases n,
{
    if n > 0 {
        masked_sum_bound(bits, quantized, bq, n - 1);
    }
}

/// The sum of the magnitudes of a query over the dimensions whose sign bit is set in a code.
pub fn positive_sum(dim: usize, query: &QueryQuantizedCode, bits: &[u8]) -> (sum: u64)
    requires
        dim % 8 == 0,
        query.has_dims(dim as int),
        bits@.len() == dim / 8,
        255 * dim <= u64::MAX,
    ensures
        sum == masked_sum(bits@, query.quantized@, query.bq, dim as int),
{
    let mut sum: u64 = 0;
    let mut d: usize = 0;
    while d < dim
        invariant
            dim % 8 == 0,
            query.has_dims(dim as int),
            bits@.len() == dim / 8,
            255 * dim <= u64::MAX,
            d <= dim,
            sum == masked_sum(bits@, query.quantized@, query.bq, d as int),
        decreases dim - d,
    {
        let k: u8 = (d % 8) as u8;
        proof {
            masked_sum_bound(bits@, query.quantized@, query.bq, d as int);
        }
        if (bits[d / 8] >> k) & 1 == 1 {
            proof {
                slot_exists(dim as int, query.bq, d as int);
            }
            sum += query.value(d) as u64;
        }
        d += 1;
    }
    sum
}

/// The code of a rotated vector, from its corrections.
pub fn encode_rotated(rotated: &[u32], alpha: u32, beta: u32) -> (code: RabitqCode)
    requires
        rotated@.len() % 8 == 0,
    ensures
        holds_signs(code@.bits, rotated@),
        code@.alpha == alpha,
        code@.beta == beta,
{
    RabitqCode { bits: pack_signs(rotated), alpha, beta }
}

/// Turns vectors into codes, all by one rotation.
#[derive(Debug)]
pub struct RabitqQuantizer {
    config: RabitqConfig,
    rotation: Vec<u32>,
}

/// `code` is the code of `vector`: the signs of the rotated vector and its corrections, which are
/// worked out from the rotated vector and `epsilon_0`.
pub open spec fn encoded_by<R: Fn(&Vec<u32>, &Vec<u32>) -> Vec<u32>, C: Fn(&Vec<u32>, u32) -> (u32, u32)>(
    rotate: R,
    corrections: C,
    rotation: Vec<u32>,
    epsilon_0: u32,
    vector: Vec<u32>,
    code: Code,
) -> bool {
    exists|rotated: Vec<u32>|
        {
            &&& #[trigger] call_ensures(rotate, (&rotation, &vector), rotated)
            &&& holds_signs(code.bits, rotated@)
            &&& call_ensures(corrections, (&rotated, epsilon_0), (code.alpha, code.beta))
        }
}

/// The bits of the magnitude of a number.
pub open spec fn absolute(bits: u32) -> u32 {
    bits % 0x8000_0000
}

/// `top` is the largest magnitude among numbers, or zero where there is none; NaN has no magnitude.
pub open spec fn is_largest(values: Seq<u32>, top: u32) -> bool {
    &&& forall|d: int|
        0 <= d < values.len() && !ieee::single_nan(#[trigger] values[d]) ==> absolute(values[d])
            <= top
    &&& top == 0 || exists|d: int|
        0 <= d < values.len() && !ieee::single_nan(#[trigger] values[d]) && absolute(values[d])
            == top
}

/// The largest magnitude among numbers, or zero where there is none.
pub fn largest_magnitude(values: &[u32]) -> (top: u32)
    ensures
        is_largest(values@, top),
{
    let mut top: u32 = 0;
    let mut d: usize = 0;
    while d < values.len()
        invariant
            d <= values@.len(),
            is_largest(values@.take(d as int), top),
        decreases values@.len() - d,
    {
        let v: u32 = values[d];
        let ghost before = values@.take(d as int);
        let ghost after = values@.take(d + 1);
        let ghost was = top;
        proof {
            assert(forall|e: int| 0 <= e < d ==> before[e] == #[trigger] after[e]);
            assert(after[d as int] == v);
        }
        if !ieee::single_is_nan(v) && v % 0x8000_0000 > top {
            top = v % 0x8000_0000;
        }
        proof {
            if top == was && top != 0 {
                let e = choose|e: int|
                    0 <= e < before.len() && !ieee::single_nan(#[trigger] before[e]) && absolute(
                        before[e],
                    ) == top;
                assert(after[e] == before[e]);
            }
            assert forall|e: int|
                0 <= e < after.len() && !ieee::single_nan(#[trigger] after[e]) implies absolute(
                after[e],
            ) <= top by {
                if e < d {
                    assert(after[e] == before[e]);
                }
            }
        }
        d += 1;
    }
    assert(values@.take(values@.len() as int) =~= values@);
    top
}

/// The step and the magnitudes of a rotated query: what `step` and `level` make of the largest
/// magnitude, or all zero with a step of one where nothing is larger than zero.
pub open spec fn graded<S: Fn(u32, u8) -> u32, L: Fn(u32, u32, u8) -> u8>(
    step: S,
    level: L,
    rotated: Seq<u32>,
    top: u32,
    bq: u8,
    scale: u32,
    magnitudes: Seq<u8>,
) -> bool {
    &&& is_largest(rotated, top)
    &&& magnitudes.len() == rotated.len()
    &&& if top > 0 {
        &&& call_ensures(step, (top, top_level(bq) as u8), scale)
        &&& forall|d: int|
            0 <= d < rotated.len() ==> call_ensures(
                level,
                (rotated[d], top, top_level(bq) as u8),
                #[trigger] magnitudes[d],
            )
    } else {
        &&& scale == ieee::SINGLE_ONE
        &&& forall|d: int| 0 <= d < rotated.len() ==> #[trigger] magnitudes[d] == 0
    }
}

/// `code` is the code of a query with `bq` bits per dimension.
pub open spec fn quantized_by<
    R: Fn(&Vec<u32>, &Vec<u32>) -> Vec<u32>,
    N: Fn(&Vec<u32>) -> u32,
    S: Fn(u32, u8) -> u32,
    L: Fn(u32, u32, u8) -> u8,
>(
    rotate: R,
    norm: N,
    step: S,
    level: L,
    rotation: Vec<u32>,
    vector: Vec<u32>,
    bq: u8,
    code: QueryQuantizedCode,
) -> bool {
    exists|rotated: Vec<u32>, top: u32, magnitudes: Seq<u8>|
        {
            &&& #[trigger] call_ensures(rotate, (&rotation, &vector), rotated)
            &&& call_ensures(norm, (&rotated,), code.alpha)
            &&& #[trigger] graded(step, level, rotated@, top, bq, code.scale, magnitudes)
            &&& code.packs(rotated@, magnitudes, bq)
        }
}

/// The magnitudes of a rotated query whose largest one is `top`.
fn grade_all<L: Fn(u32, u32, u8) -> u8>(rotated: &Vec<u32>, top: u32, bq: u8, level: &L) -> (
    magnitudes: Vec<u8>)
    requires
        cuts_byte(bq),
        forall|v: u32, t: u32, l: u8| #[trigger] call_requires(*level, (v, t, l)),
    ensures
        magnitudes@.len() == rotated@.len(),
        top > 0 ==> forall|d: int|
            0 <= d < rotated@.len() ==> call_ensures(
                *level,
                (rotated@[d], top, top_level(bq) as u8),
                #[trigger] magnitudes@[d],
            ),
        top == 0 ==> forall|d: int| 0 <= d < rotated@.len() ==> #[trigger] magnitudes@[d] == 0,
{
    let highest: u8 = levels(bq);
    let mut magnitudes: Vec<u8> = Vec::with_capacity(rotated.len());
    let mut d: usize = 0;
    while d < rotated.len()
        invariant
            d <= rotated@.len(),
            highest == top_level(bq),
            magnitudes@.len() == d,
            forall|v: u32, t: u32, l: u8| #[trigger] call_requires(*level, (v, t, l)),
            top > 0 ==> forall|e: int|
                0 <= e < d ==> call_ensures(
                    *level,
                    (rotated@[e], top, top_level(bq) as u8),
                    #[trigger] magnitudes@[e],
                ),
            top == 0 ==> forall|e: int| 0 <= e < d ==> #[trigger] magnitudes@[e] == 0,
        decreases rotated@.len() - d,
    {
        let m: u8 = if top > 0 {
            level(rotated[d], top, highest)
        } else {
            0
        };
        magnitudes.push(m);
        d += 1;
    }
    magnitudes
}

/// The code of a rotated query with `bq` bits per dimension.
fn quantize_rotated<S: Fn(u32, u8) -> u32, L: Fn(u32, u32, u8) -> u8>(
    rotated: &Vec<u32>,
    alpha: u32,
    bq: u8,
    step: &S,
    level: &L,
) -> (code: QueryQuantizedCode)
    requires
        cuts_byte(bq),
        rotated@.len() % 8 == 0,
        255 * rotated@.len() <= u64::MAX,
        forall|t: u32, l: u8| #[trigger] call_requires(*step, (t, l)),
        forall|v: u32, t: u32, l: u8| #[trigger] call_requires(*level, (v, t, l)),
    ensures
        code.alpha == alpha,
        exists|top: u32, magnitudes: Seq<u8>| #[trigger]
            graded(*step, *level, rotated@, top, bq, code.scale, magnitudes) && code.packs(
                rotated@,
                magnitudes,
                bq,
            ),
{
    let top: u32 = largest_magnitude(rotated.as_slice());
    let scale: u32 = if top > 0 {
        step(top, levels(bq))
    } else {
        ieee::SINGLE_ONE
    };
    let magnitudes: Vec<u8> = grade_all(rotated, top, bq, level);
    let code = QueryQuantizedCode::pack(
        rotated.as_slice(),
        magnitudes.as_slice(),
        bq,
        alpha,
        scale,
    );
    assert(graded(*step, *level, rotated@, top, bq, code.scale, magnitudes@));
    code
}

/// A dimension whose square can be counted is small.
proof fn dimension_bound(dim: int, n: int)
    requires
        0 <= dim,
        n == dim * dim,
        n <= usize::MAX,
    ensures
        255 * dim <= u64::MAX,
{
    assert(dim <= 0x1_0000_0000) by (nonlinear_arith)
        requires
            0 <= dim,
            dim * dim <= 0xFFFF_FFFF_FFFF_FFFF,
    ;
}

/// A rotating function can be called on a vector and a square matrix of its dimension, and keeps the
/// dimension.
pub open spec fn keeps_dim<R: Fn(&Vec<u32>, &Vec<u32>) -> Vec<u32>>(rotate: R) -> bool {
    &&& forall|m: Vec<u32>, v: Vec<u32>|
        m@.len() == v@.len() * v@.len() ==> #[trigger] call_requires(rotate, (&m, &v))
    &&& forall|m: Vec<u32>, v: Vec<u32>, r: Vec<u32>|
        m@.len() == v@.len() * v@.len() && #[trigger] call_ensures(rotate, (&m, &v), r)
            ==> r@.len() == v@.len()
}

impl RabitqQuantizer {
    /// The configuration.
    pub closed spec fn settings(&self) -> RabitqConfig {
        self.config
    }

    /// The dimension of the vectors that are encoded.
    pub open spec fn dim(&self) -> int {
        self.settings().dim as int
    }

    /// The rotation, row by row.
    pub closed spec fn matrix(&self) -> Vec<u32> {
        self.rotation
    }

    /// The dimension is a multiple of 64 and the rotation is square.
    pub open spec fn wf(&self) -> bool {
        self.dim() >= 0 && self.dim() % 64 == 0 && self.matrix()@.len() == self.dim() * self.dim()
    }

    /// A quantizer with a given rotation.
    pub fn from_rotation(config: RabitqConfig, rotation: Vec<u32>) -> (q: Self)
        requires
            config.dim % 64 == 0,
            rotation@.len() == config.dim * config.dim,
        ensures
            q.wf(),
            q.settings() == config,
            q.matrix() == rotation,
    {
        RabitqQuantizer { config, rotation }
    }

    /// The rotation, row by row.
    pub fn rotation_matrix(&self) -> (rotation: &Vec<u32>)
        ensures
            *rotation == self.matrix(),
    {
        &self.rotation
    }

    /// The configuration.
    pub fn config(&self) -> (config: &RabitqConfig)
        ensures
            *config == self.settings(),
    {
        &self.config
    }

    /// The code of a vector. `rotate` applies a rotation and `corrections` gives the squared norm
    /// of a rotated vector and its magnitude factor, from the vector and `epsilon_0`.
    pub fn encode<R: Fn(&Vec<u32>, &Vec<u32>) -> Vec<u32>, C: Fn(&Vec<u32>, u32) -> (u32, u32)>(
        &self,
        vector: &Vec<u32>,
        rotate: &R,
        corrections: &C,
    ) -> (code: RabitqCode)
        requires
            self.wf(),
            vector@.len() == self.dim(),
            keeps_dim(*rotate),
            forall|r: Vec<u32>, e: u32| #[trigger] call_requires(*corrections, (&r, e)),
        ensures
            encoded_by(
                *rotate,
                *corrections,
                self.matrix(),
                self.settings().epsilon_0,
                *vector,
                code@,
            ),
            code@.bits.len() == self.dim() / 8,
    {
        let rotated: Vec<u32> = rotate(&self.rotation, vector);
        let (alpha, beta): (u32, u32) = corrections(&rotated, self.config.epsilon_0);
        let code = encode_rotated(rotated.as_slice(), alpha, beta);
        assert(call_ensures(
            *corrections,
            (&rotated, self.config.epsilon_0),
            (code@.alpha, code@.beta),
        ));
        code
    }

    /// The vector after the rotation.
    pub fn rotate_vector<R: Fn(&Vec<u32>, &Vec<u32>) -> Vec<u32>>(
        &self,
        vector: &Vec<u32>,
        rotate: &R,
    ) -> (rotated: Vec<u32>)
        requires
            self.wf(),
            vector@.len() == self.dim(),
            keeps_dim(*rotate),
        ensures
            call_ensures(*rotate, (&self.matrix(), vector), rotated),
            rotated@.len() == self.dim(),
    {
        rotate(&self.rotation, vector)
    }

    /// The code of a query that was rotated before.
    pub fn encode_query_from_rotated<C: Fn(&Vec<u32>, u32) -> (u32, u32)>(
        &self,
        rotated: &Vec<u32>,
        corrections: &C,
    ) -> (code: RabitqCode)
        requires
            self.wf(),
            rotated@.len() == self.dim(),
            forall|r: Vec<u32>, e: u32| #[trigger] call_requires(*corrections, (&r, e)),
        ensures
            holds_signs(code@.bits, rotated@),
            call_ensures(
                *corrections,
                (rotated, self.settings().epsilon_0),
                (code@.alpha, code@.beta),
            ),
            code@.bits.len() == self.dim() / 8,
    {
        let (alpha, beta): (u32, u32) = corrections(rotated, self.config.epsilon_0);
        encode_rotated(rotated.as_slice(), alpha, beta)
    }

    /// The code of a query, made as that of any other vector.
    pub fn encode_query<R: Fn(&Vec<u32>, &Vec<u32>) -> Vec<u32>, C: Fn(&Vec<u32>, u32) -> (u32, u32)>(
        &self,
        vector: &Vec<u32>,
        rotate: &R,
        corrections: &C,
    ) -> (code: RabitqCode)
        requires
            self.wf(),
            vector@.len() == self.dim(),
            keeps_dim(*rotate),
            forall|r: Vec<u32>, e: u32| #[trigger] call_requires(*corrections, (&r, e)),
        ensures
            encoded_by(
                *rotate,
                *corrections,
                self.matrix(),
                self.settings().epsilon_0,
                *vector,
                code@,
            ),
            code@.bits.len() == self.dim() / 8,
    {
        self.encode(vector, rotate, corrections)
    }

    /// The code of a query with `bq` bits per dimension. `norm` gives the squared norm of a rotated
    /// vector, `step` the step between two magnitudes from the largest one and their number, and
    /// `level` the magnitude of a number in steps.
    pub fn encode_query_quantized<
        R: Fn(&Vec<u32>, &Vec<u32>) -> Vec<u32>,
        N: Fn(&Vec<u32>) -> u32,
        S: Fn(u32, u8) -> u32,
        L: Fn(u32, u32, u8) -> u8,
    >(
        &self,
        vector: &Vec<u32>,
        bq: u8,
        rotate: &R,
        norm: &N,
        step: &S,
        level: &L,
    ) -> (code: QueryQuantizedCode)
        requires
            self.wf(),
            vector@.len() == self.dim(),
            cuts_byte(bq),
            keeps_dim(*rotate),
            forall|r: Vec<u32>| #[trigger] call_requires(*norm, (&r,)),
            forall|t: u32, l: u8| #[trigger] call_requires(*step, (t, l)),
            forall|v: u32, t: u32, l: u8| #[trigger] call_requires(*level, (v, t, l)),
        ensures
            quantized_by(*rotate, *norm, *step, *level, self.matrix(), *vector, bq, code),
            code.has_dims(self.dim()),
            255 * self.dim() <= u64::MAX,
    {
        proof {
            dimension_bound(self.dim(), self.rotation.len() as int);
        }
        let rotated: Vec<u32> = rotate(&self.rotation, vector);
        let alpha: u32 = norm(&rotated);
        quantize_rotated(&rotated, alpha, bq, step, level)
    }

    /// The estimated distance between a query and a vector, from their codes; `estimate` turns the
    /// Hamming distance of the signs and the corrections of the vector into it.
    pub fn estimate_distance_sq<E: Fn(u64, u32, u32) -> u32>(
        &self,
        query_code: &RabitqCode,
        code: &RabitqCode,
        estimate: &E,
    ) -> (dist: u32)
        requires
            query_code.bits@.len() == code.bits@.len(),
            8 * query_code.bits@.len() <= u64::MAX,
            forall|h: u64, a: u32, b: u32| #[trigger] call_requires(*estimate, (h, a, b)),
        ensures
            call_ensures(
                *estimate,
                (simd::hamming(query_code.bits@, code.bits@) as u64, code.alpha, code.beta),
                dist,
            ),
    {
        self.estimate_distance_sq_raw(query_code, code.bits.as_slice(), code.alpha, code.beta, estimate)
    }

    /// The estimated distance between a query and a vector, from the signs and corrections.
    pub fn estimate_distance_sq_raw<E: Fn(u64, u32, u32) -> u32>(
        &self,
        query_code: &RabitqCode,
        bits: &[u8],
        alpha: u32,
        beta: u32,
        estimate: &E,
    ) -> (dist: u32)
        requires
            query_code.bits@.len() == bits@.len(),
            8 * query_code.bits@.len() <= u64::MAX,
            forall|h: u64, a: u32, b: u32| #[trigger] call_requires(*estimate, (h, a, b)),
        ensures
            call_ensures(
                *estimate,
                (simd::hamming(query_code.bits@, bits@) as u64, alpha, beta),
                dist,
            ),
    {
        let h: u64 = simd::hamming_distance(query_code.bits.as_slice(), bits);
        estimate(h, alpha, beta)
    }
}

} // verus!
