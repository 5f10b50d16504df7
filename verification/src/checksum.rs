//! The CRC-32 checksum that guards an index file.

use vstd::prelude::*;

verus! {

/// The reflected generator polynomial.
pub const POLYNOMIAL: u32 = 0xEDB8_8320;

/// Takes one bit through the checksum register.
pub open spec fn crc_bit(c: u32) -> u32 {
    if c & 1 != 0 {
        (c >> 1) ^ POLYNOMIAL
    } else {
        c >> 1
    }
}

/// Takes `n` bits through the checksum register.
pub open spec fn crc_bits(c: u32, n: nat) -> u32
    decreases n,
{
    if n == 0 {
        c
    } else {
        crc_bit(crc_bits(c, (n - 1) as nat))
    }
}

/// Takes one byte through the checksum register.
pub open spec fn crc_byte(c: u32, byte: u8) -> u32 {
    crc_bits(c ^ byte as u32, 8)
}

/// Takes bytes through the checksum register, the first byte first.
pub open spec fn crc_bytes(c: u32, data: Seq<u8>) -> u32
    decreases data.len(),
{
    if data.len() == 0 {
        c
    } else {
        crc_byte(crc_bytes(c, data.drop_last()), data.last())
    }
}

/// The checksum of `data`.
pub open spec fn crc_of(data: Seq<u8>) -> u32 {
    crc_bytes(0xFFFF_FFFF, data) ^ 0xFFFF_FFFF
}

/// The register before the first byte.
pub fn crc32_init() -> (c: u32)
    ensures
        c == 0xFFFF_FFFF,
{
    0xFFFF_FFFF
}

/// Takes `data` through the register.
pub fn crc32_update(crc: u32, data: &[u8]) -> (c: u32)
    ensures
        c == crc_bytes(crc, data@),
{
    let mut c: u32 = crc;
    let mut i: usize = 0;
    while i < data.len()
        invariant
            i <= data@.len(),
            c == crc_bytes(crc, data@.take(i as int)),
        decreases data@.len() - i,
    {
        let ghost start = c ^ data@[i as int] as u32;
        c = c ^ data[i] as u32;
        let mut k: u32 = 0;
        while k < 8
            invariant
                k <= 8,
                c == crc_bits(start, k as nat),
            decreases 8 - k,
        {
            if c & 1 != 0 {
                c = (c >> 1) ^ POLYNOMIAL;
            } else {
                c = c >> 1;
            }
            k += 1;
        }
        i += 1;
        assert(data@.take(i as int).drop_last() =~= data@.take(i - 1));
    }
    assert(data@.take(i as int) =~= data@);
    c
}

/// The checksum that the register stands for after the last byte.
pub fn crc32_finalize(crc: u32) -> (c: u32)
    ensures
        c == crc ^ 0xFFFF_FFFF,
{
    crc ^ 0xFFFF_FFFF
}

/// The checksum of `data`.
pub fn crc32(data: &[u8]) -> (c: u32)
    ensures
        c == crc_of(data@),
{
    crc32_finalize(crc32_update(crc32_init(), data))
}

/// Bytes may go through the register piece by piece.
pub proof fn crc_bytes_concat(c: u32, a: Seq<u8>, b: Seq<u8>)
    ensures
        crc_bytes(c, a + b) == crc_bytes(crc_bytes(c, a), b),
    decreases b.len(),
{
    if b.len() == 0 {
        assert(a + b =~= a);
    } else {
        assert((a + b).drop_last() =~= a + b.drop_last());
        crc_bytes_concat(c, a, b.drop_last());
    }
}

proof fn crc_bit_injective(c: u32, d: u32)
    ensures
        crc_bit(c) == crc_bit(d) ==> c == d,
{
    assert((if c & 1 != 0 {
        (c >> 1) ^ 0xEDB8_8320u32
    } else {
        c >> 1
    }) == (if d & 1 != 0 {
        (d >> 1) ^ 0xEDB8_8320u32
    } else {
        d >> 1
    }) ==> c == d) by (bit_vector);
}

proof fn crc_bits_injective(c: u32, d: u32, n: nat)
    ensures
        crc_bits(c, n) == crc_bits(d, n) ==> c == d,
    decreases n,
{
    if n > 0 {
        crc_bits_injective(c, d, (n - 1) as nat);
        crc_bit_injective(crc_bits(c, (n - 1) as nat), crc_bits(d, (n - 1) as nat));
    }
}

/// One byte takes different registers to different registers, and different bytes take one
/// register to different registers.
pub proof fn crc_byte_injective(c: u32, d: u32, x: u8, y: u8)
    ensures
        crc_byte(c, x) == crc_byte(d, x) ==> c == d,
        crc_byte(c, x) == crc_byte(c, y) ==> x == y,
{
    crc_bits_injective(c ^ x as u32, d ^ x as u32, 8);
    crc_bits_injective(c ^ x as u32, c ^ y as u32, 8);
    assert(c ^ x as u32 == d ^ x as u32 ==> c == d) by (bit_vector);
    assert(c ^ x as u32 == c ^ y as u32 ==> x == y) by (bit_vector);
}

/// The same bytes take different registers to different registers.
pub proof fn crc_bytes_injective(c: u32, d: u32, data: Seq<u8>)
    requires
        c != d,
    ensures
        crc_bytes(c, data) != crc_bytes(d, data),
    decreases data.len(),
{
    if data.len() > 0 {
        crc_bytes_injective(c, d, data.drop_last());
        crc_byte_injective(
            crc_bytes(c, data.drop_last()),
            crc_bytes(d, data.drop_last()),
            data.last(),
            data.last(),
        );
    }
}

/// Changing one byte, wherever it stands, changes the checksum.
pub proof fn crc_detects_changed_byte(data: Seq<u8>, i: int, byte: u8)
    requires
        0 <= i < data.len(),
        byte != data[i],
    ensures
        crc_of(data.update(i, byte)) != crc_of(data),
{
    let changed = data.update(i, byte);
    let c = 0xFFFF_FFFFu32;
    assert(data =~= data.take(i + 1) + data.skip(i + 1));
    assert(changed =~= changed.take(i + 1) + data.skip(i + 1));
    crc_bytes_concat(c, data.take(i + 1), data.skip(i + 1));
    crc_bytes_concat(c, changed.take(i + 1), data.skip(i + 1));
    assert(data.take(i + 1).drop_last() =~= data.take(i));
    assert(changed.take(i + 1).drop_last() =~= data.take(i));
    let front = crc_bytes(c, data.take(i));
    crc_byte_injective(front, front, data[i], byte);
    crc_bytes_injective(
        crc_bytes(c, data.take(i + 1)),
        crc_bytes(c, changed.take(i + 1)),
        data.skip(i + 1),
    );
    let (x, y) = (crc_bytes(c, data), crc_bytes(c, changed));
    assert(x ^ 0xFFFF_FFFFu32 == y ^ 0xFFFF_FFFFu32 ==> x == y) by (bit_vector);
}

} // verus!
