//! How many partitions suit a number of vectors.

use vstd::prelude::*;

verus! {

/// The fewest partitions of an index.
pub const MIN_PARTITIONS: usize = 4;

/// The most partitions of an index.
pub const MAX_PARTITIONS: usize = 65536;

/// `r` is the integer part of the square root of `n`.
pub open spec fn is_root(n: int, r: int) -> bool {
    0 <= r && r * r <= n < (r + 1) * (r + 1)
}

/// `p` is the square root of `n`, kept between the fewest and the most partitions.
pub open spec fn suits(n: int, p: int) -> bool {
    if n < 16 {
        p == 4
    } else if n >= 0x1_0000_0000 {
        p == 65536
    } else {
        is_root(n, p)
    }
}

/// The suitable number lies within the limits, and there is only one.
pub proof fn suits_is_unique(n: int, p: int, q: int)
    requires
        0 <= n,
        suits(n, p),
        suits(n, q),
    ensures
        p == q,
        4 <= p <= 65536,
{
    if 16 <= n < 0x1_0000_0000 {
        assert(p == q) by (nonlinear_arith)
            requires
                0 <= p,
                0 <= q,
                p * p <= n < (p + 1) * (p + 1),
                q * q <= n < (q + 1) * (q + 1),
        ;
        assert(4 <= p <= 65536) by (nonlinear_arith)
            requires
                16 <= n < 0x1_0000_0000,
                0 <= p,
                p * p <= n < (p + 1) * (p + 1),
        ;
    }
}

/// More vectors never get fewer partitions.
pub proof fn suits_is_monotone(m: int, n: int, p: int, q: int)
    requires
        0 <= m <= n,
        suits(m, p),
        suits(n, q),
    ensures
        p <= q,
{
    suits_is_unique(m, p, p);
    suits_is_unique(n, q, q);
    if 16 <= m && n < 0x1_0000_0000 {
        assert(p <= q) by (nonlinear_arith)
            requires
                m <= n,
                0 <= p,
                0 <= q,
                p * p <= m,
                n < (q + 1) * (q + 1),
        ;
    }
}

/// The number of partitions that suits `n` vectors.
pub fn default_num_partitions(n: usize) -> (p: usize)
    ensures
        suits(n as int, p as int),
        4 <= p <= 65536,
{
    if n < 16 {
        return MIN_PARTITIONS;
    }
    if n as u64 >= 0x1_0000_0000 {
        return MAX_PARTITIONS;
    }
    let m: u64 = n as u64;
    let mut low: u64 = 4;
    let mut high: u64 = 65536;
    while high - low > 1
        invariant
            4 <= low < high <= 65536,
            m == n,
            low * low <= m < high * high,
        decreases high - low,
    {
        let mid: u64 = low + (high - low) / 2;
        assert(mid * mid <= 65536 * 65536) by (nonlinear_arith)
            requires
                mid <= 65536,
        ;
        if mid * mid <= m {
            low = mid;
        } else {
            high = mid;
        }
    }
    assert(high == low + 1);
    low as usize
}

} // verus!
