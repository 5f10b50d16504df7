//! Recommended parameters for a machine and a number of vectors.

use crate::partitioning;
use vstd::prelude::*;

verus! {

/// Less memory than this counts as little.
pub const MEMORY_THRESHOLD_BYTES: u64 = 17_179_869_184;

/// How much of little memory mapped files may take, in percent.
pub const SMALL_MEMORY_CACHE_PERCENT: u64 = 50;

/// How much of the memory mapped files may take otherwise, in percent.
pub const LARGE_MEMORY_CACHE_PERCENT: u64 = 85;

/// The fewest partitions of an index.
pub const MIN_PARTITIONS: usize = 4;

/// The most partitions of an index.
pub const MAX_PARTITIONS: usize = 65_536;

/// Fewer vectors than this are few.
pub const SMALL_DATASET_THRESHOLD: usize = 10_000;

/// Fewer vectors than this are not many.
pub const MEDIUM_DATASET_THRESHOLD: usize = 1_000_000;

/// The fewest partitions that are looked at among many vectors.
pub const LARGE_NPROBE_MIN: usize = 100;

/// The most partitions that are looked at among many vectors.
pub const LARGE_NPROBE_MAX: usize = 300;

/// How many partitions are looked at where speed is all that counts.
pub const LATENCY_NPROBE: usize = 16;

/// How many bytes of a memory mapped files may take.
pub open spec fn cache_bytes(memory_bytes: int) -> int {
    if memory_bytes < MEMORY_THRESHOLD_BYTES {
        memory_bytes * 50 / 100
    } else {
        memory_bytes * 85 / 100
    }
}

/// How many bytes of a memory mapped files may take.
pub fn recommend_mmap_cache_bytes(memory_bytes: u64) -> (bytes: u64)
    ensures
        bytes == cache_bytes(memory_bytes as int),
{
    if memory_bytes < MEMORY_THRESHOLD_BYTES {
        (memory_bytes * SMALL_MEMORY_CACHE_PERCENT) / 100
    } else {
        let percent: u128 = LARGE_MEMORY_CACHE_PERCENT as u128;
        assert(percent == 85);
        (memory_bytes as u128 * percent / 100) as u64
    }
}

/// The recommended number of partitions: the square root of the number of vectors, within limits.
pub fn recommend_num_partitions(n: usize) -> (partitions: usize)
    ensures
        partitioning::suits(n as int, partitions as int),
{
    partitioning::default_num_partitions(n)
}

/// Parameters for a search.
#[derive(Debug, Clone)]
pub struct LatencyOptions {
    pub nprobe: usize,
    pub refine_k: usize,
    pub query_bits: u8,
    pub fastscan: bool,
    /// The recall that may be expected, in words.
    pub recall_target: &'static str,
}

/// Parameters for several aims.
#[derive(Debug, Clone)]
pub struct RecommendedOptions {
    pub partitions: usize,
    /// Speed is all that counts.
    pub latency: LatencyOptions,
    pub balanced: LatencyOptions,
    /// Recall is all that counts.
    pub recall: LatencyOptions,
    /// How many bytes mapped files may take, where the size of the memory is known.
    pub mmap_cache_bytes: Option<u64>,
}

/// A number kept between two others.
pub open spec fn clamped(n: int, lo: int, hi: int) -> int {
    if n < lo {
        lo
    } else if n > hi {
        hi
    } else {
        n
    }
}

/// A number kept between two others.
fn clamp(n: usize, lo: usize, hi: usize) -> (r: usize)
    ensures
        r == clamped(n as int, lo as int, hi as int),
{
    if n < lo {
        lo
    } else if n > hi {
        hi
    } else {
        n
    }
}

/// What is recommended for speed.
pub open spec fn is_latency(o: LatencyOptions, k: int) -> bool {
    &&& o.nprobe == 16
    &&& o.refine_k == 10 * k
    &&& o.query_bits == 8
    &&& o.fastscan
    &&& o.recall_target@ == "中等"@
}

/// What is recommended as a balance, for `n` vectors in a number of partitions.
pub open spec fn is_balanced(o: LatencyOptions, n: int, k: int, partitions: int) -> bool {
    &&& o.query_bits == 0
    &&& o.fastscan
    &&& if n < SMALL_DATASET_THRESHOLD {
        &&& o.nprobe == clamped(partitions, 0, 50)
        &&& o.refine_k == 20 * k
        &&& o.recall_target@ == "≥ 0.99"@
    } else if n < MEDIUM_DATASET_THRESHOLD {
        &&& o.nprobe == 50
        &&& o.refine_k == 1_000
        &&& o.recall_target@ == "≥ 0.95"@
    } else {
        &&& o.nprobe == clamped(partitions / 100, 100, 300)
        &&& o.refine_k == 5_000
        &&& o.recall_target@ == "≥ 0.96"@
    }
}

/// What is recommended for recall, in a number of partitions.
pub open spec fn is_recall(o: LatencyOptions, partitions: int) -> bool {
    &&& o.nprobe == clamped(partitions / 10, 100, 300)
    &&& o.refine_k == 5_000
    &&& o.query_bits == 0
    &&& o.fastscan
    &&& o.recall_target@ == "≥ 0.99"@
}

/// Recommended parameters for `n` vectors and `k` results, on a machine with a given memory.
pub fn recommend_search_options(n: usize, k: usize, memory_bytes: Option<u64>) -> (options:
    RecommendedOptions)
    requires
        10 * k <= usize::MAX,
        n < SMALL_DATASET_THRESHOLD ==> 20 * k <= usize::MAX,
    ensures
        partitioning::suits(n as int, options.partitions as int),
        is_latency(options.latency, k as int),
        is_balanced(options.balanced, n as int, k as int, options.partitions as int),
        is_recall(options.recall, options.partitions as int),
        match (memory_bytes, options.mmap_cache_bytes) {
            (Some(memory), Some(cache)) => cache == cache_bytes(memory as int),
            (None, None) => true,
            _ => false,
        },
{
    let partitions: usize = recommend_num_partitions(n);
    let balanced: LatencyOptions = if n < SMALL_DATASET_THRESHOLD {
        LatencyOptions {
            nprobe: clamp(partitions, 0, 50),
            refine_k: k * 20,
            query_bits: 0,
            fastscan: true,
            recall_target: "≥ 0.99",
        }
    } else if n < MEDIUM_DATASET_THRESHOLD {
        LatencyOptions {
            nprobe: 50,
            refine_k: 1_000,
            query_bits: 0,
            fastscan: true,
            recall_target: "≥ 0.95",
        }
    } else {
        LatencyOptions {
            nprobe: clamp(partitions / 100, LARGE_NPROBE_MIN, LARGE_NPROBE_MAX),
            refine_k: 5_000,
            query_bits: 0,
            fastscan: true,
            recall_target: "≥ 0.96",
        }
    };
    let mmap_cache_bytes: Option<u64> = match memory_bytes {
        Some(memory) => Some(recommend_mmap_cache_bytes(memory)),
        None => None,
    };
    RecommendedOptions {
        partitions,
        latency: LatencyOptions {
            nprobe: LATENCY_NPROBE,
            refine_k: k * 10,
            query_bits: 8,
            fastscan: true,
            recall_target: "中等",
        },
        balanced,
        recall: LatencyOptions {
            nprobe: clamp(partitions / 10, LARGE_NPROBE_MIN, LARGE_NPROBE_MAX),
            refine_k: 5_000,
            query_bits: 0,
            fastscan: true,
            recall_target: "≥ 0.99",
        },
        mmap_cache_bytes,
    }
}

/// What is recommended lies within limits: the number of partitions is the one that suits the number
/// of vectors, and no more than 300 partitions are looked at, nor fewer than four.
pub proof fn recommendations_are_within_limits(
    options: RecommendedOptions,
    n: int,
    k: int,
    partitions: int,
)
    requires
        0 <= n,
        partitioning::suits(n, options.partitions as int),
        partitioning::suits(n, partitions),
        is_latency(options.latency, k),
        is_balanced(options.balanced, n, k, options.partitions as int),
        is_recall(options.recall, options.partitions as int),
    ensures
        options.partitions == partitions,
        options.latency.nprobe == LATENCY_NPROBE,
        4 <= options.balanced.nprobe <= LARGE_NPROBE_MAX,
        LARGE_NPROBE_MIN <= options.recall.nprobe <= LARGE_NPROBE_MAX,
        options.latency.fastscan && options.balanced.fastscan && options.recall.fastscan,
{
    partitioning::suits_is_unique(n, options.partitions as int, partitions);
}

/// More memory never gives less cache.
pub proof fn cache_grows_with_memory(a: int, b: int)
    requires
        0 <= a <= b,
    ensures
        0 <= cache_bytes(a) <= cache_bytes(b) <= b,
{
}

} // verus!
