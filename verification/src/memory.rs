//! How much memory a machine has, and how much of it mapped files may take.

use vstd::prelude::*;

verus! {

/// Less memory than this counts as little.
pub const LOW_MEMORY_THRESHOLD: u64 = 17_179_869_184;

/// The physical memory of a machine by its pages; none where the system tells no size.
pub open spec fn memory_of(pages: int, page_size: int) -> Option<int> {
    if pages > 0 && page_size > 0 {
        Some(pages * page_size)
    } else {
        None
    }
}

/// The physical memory of a machine, from the number and the size of its pages as the system
/// tells them.
pub fn available_physical_memory(pages: i64, page_size: i64) -> (bytes: Option<u64>)
    requires
        pages * page_size <= u64::MAX,
    ensures
        bytes is Some <==> memory_of(pages as int, page_size as int) is Some,
        bytes is Some ==> bytes->0 == memory_of(pages as int, page_size as int)->0,
{
    if pages > 0 && page_size > 0 {
        Some(pages as u64 * page_size as u64)
    } else {
        None
    }
}

/// The share of a memory that mapped files may take: half of little memory, otherwise 85 percent.
pub open spec fn share_of(physical: int) -> int {
    if physical < LOW_MEMORY_THRESHOLD {
        physical / 2
    } else {
        physical * 85 / 100
    }
}

/// The memory that is reckoned with: all there could be where the size is not known.
pub open spec fn reckoned(physical: Option<u64>) -> int {
    match physical {
        Some(bytes) => bytes as int,
        None => u64::MAX as int,
    }
}

/// How many bytes mapped files may take.
pub fn mmap_budget(physical: Option<u64>) -> (budget: u64)
    ensures
        budget == share_of(reckoned(physical)),
{
    let bytes: u64 = match physical {
        Some(bytes) => bytes,
        None => u64::MAX,
    };
    if bytes < LOW_MEMORY_THRESHOLD {
        bytes / 2
    } else {
        (bytes as u128 * 85 / 100) as u64
    }
}

/// A file is too long to be mapped.
#[derive(Debug, Clone, Copy, PartialEq, Eq, Structural)]
pub struct OverBudget {
    /// How many bytes the file has.
    pub len: u64,
    /// How many bytes mapped files may take.
    pub budget: u64,
    /// The memory that was reckoned with.
    pub physical: u64,
}

/// Whether a file can be mapped as a whole.
pub fn check_budget(len: u64, physical: Option<u64>) -> (r: Result<(), OverBudget>)
    ensures
        match r {
            Ok(_) => len <= share_of(reckoned(physical)),
            Err(e) => {
                &&& len > share_of(reckoned(physical))
                &&& e.len == len
                &&& e.budget == share_of(reckoned(physical))
                &&& e.physical == reckoned(physical)
            },
        },
{
    let budget: u64 = mmap_budget(physical);
    if len > budget {
        let bytes: u64 = match physical {
            Some(bytes) => bytes,
            None => u64::MAX,
        };
        Err(OverBudget { len, budget, physical: bytes })
    } else {
        Ok(())
    }
}

} // verus!
