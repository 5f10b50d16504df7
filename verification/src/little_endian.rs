//! Unsigned integers as bytes, the lowest byte first.

use vstd::prelude::*;

verus! {

/// The lowest `width` bytes of `x`, the lowest first.
pub open spec fn le_bytes(x: nat, width: nat) -> Seq<u8>
    decreases width,
{
    if width == 0 {
        Seq::empty()
    } else {
        seq![(x % 256) as u8] + le_bytes(x / 256, (width - 1) as nat)
    }
}

/// The number that bytes stand for, the first byte lowest.
pub open spec fn le_value(s: Seq<u8>) -> nat
    decreases s.len(),
{
    if s.len() == 0 {
        0
    } else {
        s[0] as nat + 256 * le_value(s.skip(1))
    }
}

/// How many numbers fit into `width` bytes.
pub open spec fn le_limit(width: nat) -> nat
    decreases width,
{
    if width == 0 {
        1
    } else {
        256 * le_limit((width - 1) as nat)
    }
}

/// `le_bytes` yields `width` bytes.
pub broadcast proof fn le_bytes_len(x: nat, width: nat)
    ensures
        #[trigger] le_bytes(x, width).len() == width,
    decreases width,
{
    if width > 0 {
        le_bytes_len(x / 256, (width - 1) as nat);
    }
}

/// Reading back what was written gives the number, where it fits.
pub proof fn le_value_of_bytes(x: nat, width: nat)
    requires
        x < le_limit(width),
    ensures
        le_value(le_bytes(x, width)) == x,
    decreases width,
{
    if width > 0 {
        le_value_of_bytes(x / 256, (width - 1) as nat);
        le_bytes_len(x / 256, (width - 1) as nat);
        assert(le_bytes(x, width).skip(1) =~= le_bytes(x / 256, (width - 1) as nat));
    }
}

/// Writing back what was read gives the bytes.
pub proof fn le_bytes_of_value(s: Seq<u8>)
    ensures
        le_bytes(le_value(s), s.len()) == s,
        le_value(s) < le_limit(s.len()),
    decreases s.len(),
{
    if s.len() > 0 {
        le_bytes_of_value(s.skip(1));
        let v = le_value(s);
        assert(v % 256 == s[0]);
        assert(v / 256 == le_value(s.skip(1)));
        assert(le_bytes(v, s.len()) =~= s);
    } else {
        assert(le_bytes(le_value(s), 0) =~= s);
    }
}

/// Four bytes hold a `u32`, eight a `u64`.
pub proof fn le_limits()
    ensures
        le_limit(4) == 0x1_0000_0000,
        le_limit(8) == 0x1_0000_0000_0000_0000,
{
    reveal_with_fuel(le_limit, 9);
}

/// Appends a `u32` as four bytes.
pub fn push_u32(out: &mut Vec<u8>, x: u32)
    ensures
        final(out)@ == old(out)@ + le_bytes(x as nat, 4),
{
    out.push((x % 256) as u8);
    out.push((x / 0x100 % 256) as u8);
    out.push((x / 0x1_0000 % 256) as u8);
    out.push((x / 0x100_0000 % 256) as u8);
    proof {
        reveal_with_fuel(le_bytes, 5);
        assert(out@ =~= old(out)@ + le_bytes(x as nat, 4));
    }
}

/// Appends a `u64` as eight bytes.
pub fn push_u64(out: &mut Vec<u8>, x: u64)
    ensures
        final(out)@ == old(out)@ + le_bytes(x as nat, 8),
{
    let ghost goal = out@ + le_bytes(x as nat, 8);
    let mut rest: u64 = x;
    let mut left: usize = 8;
    while left > 0
        invariant
            left <= 8,
            out@ + le_bytes(rest as nat, left as nat) == goal,
        decreases left,
    {
        let ghost before = out@;
        let byte: u8 = (rest % 256) as u8;
        out.push(byte);
        assert(out@ + le_bytes((rest / 256) as nat, (left - 1) as nat) =~= before + (seq![byte]
            + le_bytes((rest / 256) as nat, (left - 1) as nat)));
        rest = rest / 256;
        left -= 1;
    }
    assert(out@ + le_bytes(rest as nat, 0) =~= out@);
}

/// Reads four bytes at `at`.
pub fn read_u32(buf: &[u8], at: usize) -> (x: u32)
    requires
        at + 4 <= buf@.len(),
    ensures
        x == le_value(buf@.subrange(at as int, at + 4)),
{
    let x: u32 = buf[at] as u32 + 0x100 * buf[at + 1] as u32 + 0x1_0000 * buf[at + 2] as u32
        + 0x100_0000 * buf[at + 3] as u32;
    proof {
        let s = buf@.subrange(at as int, at + 4);
        reveal_with_fuel(le_value, 5);
        assert(s.skip(1).skip(1).skip(1)[0] == s[3]);
        assert(s.skip(1).skip(1)[0] == s[2]);
        assert(s.skip(1)[0] == s[1]);
    }
    x
}

/// The value of two halves, each of four bytes.
proof fn le_value_split(s: Seq<u8>, i: int)
    requires
        0 <= i <= s.len(),
    ensures
        le_value(s) == le_value(s.take(i)) + le_limit(i as nat) * le_value(s.skip(i)),
    decreases i,
{
    if i == 0 {
        assert(s.skip(0) =~= s);
        assert(le_limit(0) * le_value(s) == le_value(s)) by {
            assert(le_limit(0) == 1);
        }
        assert(le_value(s.take(0)) == 0);
    } else {
        let t = s.skip(1);
        le_value_split(t, i - 1);
        assert(t.take(i - 1) =~= s.take(i).skip(1));
        assert(t.skip(i - 1) =~= s.skip(i));
        assert(s.take(i)[0] == s[0]);
        let (l, v) = (le_limit((i - 1) as nat), le_value(s.skip(i)));
        assert(le_limit(i as nat) == 256 * l);
        assert(le_value(s.take(i)) == s[0] + 256 * le_value(t.take(i - 1)));
        assert(256 * (l * v) == (256 * l) * v) by (nonlinear_arith);
    }
}

/// Reads eight bytes at `at`.
pub fn read_u64(buf: &[u8], at: usize) -> (x: u64)
    requires
        at + 8 <= buf@.len(),
    ensures
        x == le_value(buf@.subrange(at as int, at + 8)),
{
    assert(buf@.len() == buf.len());
    let low: u32 = read_u32(buf, at);
    let high: u32 = read_u32(buf, at + 4);
    let x: u64 = low as u64 + 0x1_0000_0000u64 * high as u64;
    proof {
        let s = buf@.subrange(at as int, at + 8);
        le_value_split(s, 4);
        le_limits();
        assert(s.take(4) =~= buf@.subrange(at as int, at + 4));
        assert(s.skip(4) =~= buf@.subrange(at + 4, at + 8));
    }
    x
}

} // verus!
