//! Hamming distances between packed bit arrays.

use vstd::arithmetic::power2::*;
use vstd::prelude::*;

verus! {

/// The number of ones in the binary representation of `x`.
pub open spec fn ones(x: nat) -> nat
    decreases x,
{
    if x == 0 {
        0
    } else {
        x % 2 + ones(x / 2)
    }
}

/// The number of bit positions in which the first `min(a.len(), b.len())` bytes differ.
pub open spec fn hamming(a: Seq<u8>, b: Seq<u8>) -> nat
    decreases a.len(),
{
    if a.len() == 0 || b.len() == 0 {
        0
    } else {
        hamming(a.drop_last(), b.drop_last()) + ones((a.last() ^ b.last()) as nat)
    }
}

/// `u8::count_ones` returns the number of ones in the binary representation.
pub assume_specification[ u8::count_ones ](x: u8) -> (r: u32)
    ensures
        r == ones(x as nat),
;

/// `u64::count_ones` returns the number of ones in the binary representation.
pub assume_specification[ u64::count_ones ](x: u64) -> (r: u32)
    ensures
        r == ones(x as nat),
;

/// One binary digit of `x` is set or not, and the rest are those of `x / 2`.
proof fn ones_step(x: nat)
    ensures
        ones(x) == x % 2 + ones(x / 2),
{
}

/// The ones of `x` are those of its lowest `k` binary digits and those of the digits above.
proof fn ones_split(x: nat, k: nat)
    ensures
        pow2(k) > 0,
        ones(x) == ones(x % pow2(k)) + ones(x / pow2(k)),
    decreases k,
{
    lemma_pow2_pos(k);
    if k == 0 {
        lemma2_to64();
        assert(ones(0) == 0);
    } else {
        let half = pow2((k - 1) as nat);
        let y = x / 2;
        ones_split(y, (k - 1) as nat);
        lemma_pow2_unfold(k);
        vstd::arithmetic::div_mod::lemma_mod_breakdown(x as int, 2, half as int);
        vstd::arithmetic::div_mod::lemma_div_denominator(x as int, 2, half as int);
        let low = x % pow2(k);
        ones_step(x);
        ones_step(low);
        assert(low == 2 * (y % half) + x % 2);
        assert(low / 2 == y % half);
    }
}

/// The ones of `x` are those of its lowest byte and those of the bytes above it.
proof fn ones_split_byte(x: nat)
    ensures
        ones(x) == ones(x % 256) + ones(x / 256),
{
    lemma2_to64();
    ones_split(x, 8);
}

/// A byte holds at most eight ones.
proof fn ones_of_byte(x: nat)
    requires
        x < 256,
    ensures
        ones(x) <= 8,
{
    ones_step(x);
    ones_step(x / 2);
    ones_step(x / 4);
    ones_step(x / 8);
    ones_step(x / 16);
    ones_step(x / 32);
    ones_step(x / 64);
    ones_step(x / 128);
    assert(ones(0) == 0);
}

/// The bytes of a word and its quotients by powers of 256.
proof fn word_bytes(x: u64)
    ensures
        ones(x as nat) == ones((x & 0xff) as nat) + ones(((x >> 8) & 0xff) as nat) + ones(
            ((x >> 16) & 0xff) as nat,
        ) + ones(((x >> 24) & 0xff) as nat) + ones(((x >> 32) & 0xff) as nat) + ones(
            ((x >> 40) & 0xff) as nat,
        ) + ones(((x >> 48) & 0xff) as nat) + ones(((x >> 56) & 0xff) as nat),
{
    assert(x & 0xff == x % 256 && (x >> 8) & 0xff == (x >> 8) % 256 && (x >> 16) & 0xff == (x >> 16)
        % 256 && (x >> 24) & 0xff == (x >> 24) % 256 && (x >> 32) & 0xff == (x >> 32) % 256 && (x
        >> 40) & 0xff == (x >> 40) % 256 && (x >> 48) & 0xff == (x >> 48) % 256 && (x >> 56) & 0xff
        == (x >> 56) % 256) by (bit_vector);
    assert(x >> 8 == x / 256 && x >> 16 == (x >> 8) / 256 && x >> 24 == (x >> 16) / 256 && x >> 32
        == (x >> 24) / 256 && x >> 40 == (x >> 32) / 256 && x >> 48 == (x >> 40) / 256 && x >> 56
        == (x >> 48) / 256 && (x >> 56) / 256 == 0) by (bit_vector);
    ones_split_byte(x as nat);
    ones_split_byte((x >> 8) as nat);
    ones_split_byte((x >> 16) as nat);
    ones_split_byte((x >> 24) as nat);
    ones_split_byte((x >> 32) as nat);
    ones_split_byte((x >> 40) as nat);
    ones_split_byte((x >> 48) as nat);
    ones_split_byte((x >> 56) as nat);
    assert(ones(0) == 0);
}

/// Eight bytes as one word, the first byte lowest.
spec fn word(b: Seq<u8>) -> u64 {
    b[0] as u64 | (b[1] as u64) << 8 | (b[2] as u64) << 16 | (b[3] as u64) << 24 | (b[4] as u64)
        << 32 | (b[5] as u64) << 40 | (b[6] as u64) << 48 | (b[7] as u64) << 56
}

/// The distance of eight bytes is the number of ones in the exclusive or of their words.
proof fn word_distance(a: Seq<u8>, b: Seq<u8>)
    requires
        a.len() == 8,
        b.len() == 8,
    ensures
        ones((word(a) ^ word(b)) as nat) == hamming(a, b),
{
    let x = word(a) ^ word(b);
    let (a0, a1, a2, a3, a4, a5, a6, a7) = (a[0], a[1], a[2], a[3], a[4], a[5], a[6], a[7]);
    let (b0, b1, b2, b3, b4, b5, b6, b7) = (b[0], b[1], b[2], b[3], b[4], b[5], b[6], b[7]);
    assert(x & 0xff == (a0 ^ b0) as u64 && (x >> 8) & 0xff == (a1 ^ b1) as u64 && (x >> 16) & 0xff
        == (a2 ^ b2) as u64 && (x >> 24) & 0xff == (a3 ^ b3) as u64 && (x >> 32) & 0xff == (a4 ^ b4)
        as u64 && (x >> 40) & 0xff == (a5 ^ b5) as u64 && (x >> 48) & 0xff == (a6 ^ b6) as u64 && (x
        >> 56) & 0xff == (a7 ^ b7) as u64) by (bit_vector)
        requires
            x == (a0 as u64 | (a1 as u64) << 8 | (a2 as u64) << 16 | (a3 as u64) << 24 | (
            a4 as u64) << 32 | (a5 as u64) << 40 | (a6 as u64) << 48 | (a7 as u64) << 56) ^ (
            b0 as u64 | (b1 as u64) << 8 | (b2 as u64) << 16 | (b3 as u64) << 24 | (b4 as u64)
                << 32 | (b5 as u64) << 40 | (b6 as u64) << 48 | (b7 as u64) << 56),
    ;
    word_bytes(x);
    reveal_with_fuel(hamming, 9);
}

/// The distance of two arrays is that of their fronts and that of what follows.
proof fn hamming_splits(a: Seq<u8>, b: Seq<u8>, i: int)
    requires
        a.len() == b.len(),
        0 <= i <= a.len(),
    ensures
        hamming(a, b) == hamming(a.take(i), b.take(i)) + hamming(a.skip(i), b.skip(i)),
    decreases a.len() - i,
{
    if i == a.len() {
        assert(a.take(i) =~= a);
        assert(b.take(i) =~= b);
    } else {
        let (a0, b0) = (a.drop_last(), b.drop_last());
        hamming_splits(a0, b0, i);
        assert(a0.take(i) =~= a.take(i));
        assert(b0.take(i) =~= b.take(i));
        assert(a0.skip(i) =~= a.skip(i).drop_last());
        assert(b0.skip(i) =~= b.skip(i).drop_last());
        assert(a.skip(i).last() == a.last());
        assert(b.skip(i).last() == b.last());
    }
}

/// The distance is at most eight per byte.
pub proof fn hamming_bound(a: Seq<u8>, b: Seq<u8>)
    ensures
        hamming(a, b) <= 8 * a.len(),
    decreases a.len(),
{
    if a.len() > 0 && b.len() > 0 {
        hamming_bound(a.drop_last(), b.drop_last());
        ones_of_byte((a.last() ^ b.last()) as nat);
    }
}

/// The distance does not depend on which array comes first.
pub proof fn hamming_symmetric(a: Seq<u8>, b: Seq<u8>)
    requires
        a.len() == b.len(),
    ensures
        hamming(a, b) == hamming(b, a),
    decreases a.len(),
{
    if a.len() > 0 {
        hamming_symmetric(a.drop_last(), b.drop_last());
        let (x, y) = (a.last(), b.last());
        assert(x ^ y == y ^ x) by (bit_vector);
    }
}

/// The distance is zero exactly between equal arrays.
pub proof fn hamming_zero_iff_equal(a: Seq<u8>, b: Seq<u8>)
    requires
        a.len() == b.len(),
    ensures
        hamming(a, b) == 0 <==> a == b,
    decreases a.len(),
{
    if a.len() == 0 {
        assert(a =~= b);
    } else {
        let (a0, b0) = (a.drop_last(), b.drop_last());
        hamming_zero_iff_equal(a0, b0);
        let (x, y) = (a.last(), b.last());
        assert(x ^ y == 0 <==> x == y) by (bit_vector);
        ones_positive((x ^ y) as nat);
        assert(a =~= a0.push(x));
        assert(b =~= b0.push(y));
    }
}

/// Only zero has no ones.
proof fn ones_positive(x: nat)
    ensures
        ones(x) == 0 <==> x == 0,
    decreases x,
{
    if x > 0 {
        ones_positive(x / 2);
    }
}

/// Reads eight bytes as one word, the first byte lowest.
fn read_word(bytes: &[u8], offset: usize) -> (w: u64)
    requires
        offset + 8 <= bytes@.len(),
    ensures
        w == word(bytes@.subrange(offset as int, offset + 8)),
{
    bytes[offset] as u64 | (bytes[offset + 1] as u64) << 8 | (bytes[offset + 2] as u64) << 16 | (
    bytes[offset + 3] as u64) << 24 | (bytes[offset + 4] as u64) << 32 | (bytes[offset + 5] as u64)
        << 40 | (bytes[offset + 6] as u64) << 48 | (bytes[offset + 7] as u64) << 56
}

/// The Hamming distance, eight bytes at a time and the tail byte by byte.
pub fn hamming_distance_fallback(a: &[u8], b: &[u8]) -> (dist: u64)
    requires
        a@.len() == b@.len(),
        8 * a@.len() <= u64::MAX,
    ensures
        dist == hamming(a@, b@),
{
    let mut dist: u64 = 0;
    let n: usize = a.len();
    let chunks: usize = n / 8;
    let mut i: usize = 0;
    while i < chunks
        invariant
            n == a@.len() == b@.len(),
            8 * n <= u64::MAX,
            chunks == n / 8,
            i <= chunks,
            dist == hamming(a@.take(8 * i), b@.take(8 * i)),
        decreases chunks - i,
    {
        let offset: usize = i * 8;
        let x: u64 = read_word(a, offset) ^ read_word(b, offset);
        proof {
            let (fa, fb) = (a@.take(8 * i + 8), b@.take(8 * i + 8));
            hamming_splits(fa, fb, 8 * i);
            assert(fa.take(8 * i) =~= a@.take(8 * i));
            assert(fb.take(8 * i) =~= b@.take(8 * i));
            assert(fa.skip(8 * i) =~= a@.subrange(offset as int, offset + 8));
            assert(fb.skip(8 * i) =~= b@.subrange(offset as int, offset + 8));
            word_distance(fa.skip(8 * i), fb.skip(8 * i));
            hamming_bound(fa, fb);
        }
        dist += x.count_ones() as u64;
        i += 1;
    }
    let mut j: usize = chunks * 8;
    while j < n
        invariant
            n == a@.len() == b@.len(),
            8 * n <= u64::MAX,
            j <= n,
            dist == hamming(a@.take(j as int), b@.take(j as int)),
        decreases n - j,
    {
        let x: u8 = a[j] ^ b[j];
        proof {
            let (fa, fb) = (a@.take(j + 1), b@.take(j + 1));
            assert(fa.drop_last() =~= a@.take(j as int));
            assert(fb.drop_last() =~= b@.take(j as int));
            hamming_bound(fa, fb);
        }
        dist += x.count_ones() as u64;
        j += 1;
    }
    assert(a@.take(n as int) =~= a@);
    assert(b@.take(n as int) =~= b@);
    dist
}

/// The Hamming distance between two bit arrays of equal length, whichever comes first.
pub fn hamming_distance(a: &[u8], b: &[u8]) -> (dist: u64)
    requires
        a@.len() == b@.len(),
        8 * a@.len() <= u64::MAX,
    ensures
        dist == hamming(a@, b@),
        dist == hamming(b@, a@),
{
    proof {
        hamming_symmetric(a@, b@);
    }
    hamming_distance_fallback(a, b)
}

/// `out` holds the distances from a query to codes, place by place.
pub open spec fn are_distances(query: Seq<u8>, codes: Seq<&[u8]>, out: Seq<u64>) -> bool {
    &&& out.len() == codes.len()
    &&& forall|i: int| 0 <= i < codes.len() ==> #[trigger] out[i] == hamming(query, codes[i]@)
}

/// Whatever computes the distances from a query to codes, the processor or a device in its place,
/// computes the same.
pub proof fn distances_agree(query: Seq<u8>, codes: Seq<&[u8]>, x: Seq<u64>, y: Seq<u64>)
    requires
        are_distances(query, codes, x),
        are_distances(query, codes, y),
    ensures
        x == y,
{
    assert(x =~= y);
}

/// Distances from a query to codes are those that are computed one by one, from either end.
pub proof fn batch_is_one_by_one(query: Seq<u8>, codes: Seq<&[u8]>, out: Seq<u64>, i: int)
    requires
        are_distances(query, codes, out),
        0 <= i < codes.len(),
        codes[i]@.len() == query.len(),
    ensures
        out[i] == hamming(query, codes[i]@),
        out[i] == hamming(codes[i]@, query),
{
    hamming_symmetric(query, codes[i]@);
}

/// The Hamming distance from `query` to each of `codes`, written to `out` place by place.
pub fn batch_hamming_distance(query: &[u8], codes: &[&[u8]], out: &mut [u64])
    requires
        codes@.len() == old(out)@.len(),
        8 * query@.len() <= u64::MAX,
        forall|i: int| 0 <= i < codes@.len() ==> (#[trigger] codes@[i])@.len() == query@.len(),
    ensures
        are_distances(query@, codes@, final(out)@),
{
    let mut i: usize = 0;
    while i < codes.len()
        invariant
            i <= codes@.len(),
            out@.len() == codes@.len(),
            8 * query@.len() <= u64::MAX,
            forall|j: int| 0 <= j < codes@.len() ==> (#[trigger] codes@[j])@.len() == query@.len(),
            forall|j: int| 0 <= j < i ==> #[trigger] out@[j] == hamming(query@, codes@[j]@),
        decreases codes@.len() - i,
    {
        out[i] = hamming_distance(query, codes[i]);
        i += 1;
    }
}

} // verus!
