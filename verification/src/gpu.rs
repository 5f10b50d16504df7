//! Computing Hamming distances on a graphics device, where there is one.

use crate::simd;
use vstd::prelude::*;

verus! {

/// A graphics device. None is driven yet, so none can be made.
#[derive(Debug)]
pub struct GpuDevice;

impl GpuDevice {
    /// The device of the machine; there is none.
    pub fn new() -> (device: Option<Self>)
        ensures
            device is None,
    {
        None
    }

    /// The Hamming distances from a query to several codes, computed by the processor: what
    /// `simd::batch_hamming_distance` gives.
    pub fn batch_rabitq_popcount(&self, query: &[u8], codes: &[&[u8]], out: &mut [u64])
        requires
            codes@.len() == old(out)@.len(),
            8 * query@.len() <= u64::MAX,
            forall|i: int| 0 <= i < codes@.len() ==> (#[trigger] codes@[i])@.len() == query@.len(),
        ensures
            simd::are_distances(query@, codes@, final(out)@),
    {
        simd::batch_hamming_distance(query, codes, out);
    }
}

} // verus!
