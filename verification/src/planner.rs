//! Planner pipeline (expand, score, prune, refine) over serialised plan
//! blocks. The stages have no kernel yet, so a block passes through unchanged.
use vstd::prelude::*;

verus! {

/// The planner, and whether a GPU device was found for it.
pub struct GpuPlanner {
    gpu_ready: bool,
}

impl GpuPlanner {
    /// Whether a GPU device is available to the planner.
    pub closed spec fn has_device(&self) -> bool {
        self.gpu_ready
    }

    /// A planner without a GPU device.
    pub fn new() -> (p: Option<Self>)
        ensures
            p matches Some(q) && !q.has_device(),
    {
        Some(GpuPlanner { gpu_ready: false })
    }

    /// A planner for which a GPU device was, or was not, found.
    pub fn with_device(gpu_ready: bool) -> (p: Self)
        ensures
            p.has_device() == gpu_ready,
    {
        GpuPlanner { gpu_ready }
    }

    /// Run the planner pipeline on serialised block bytes; returns the block
    /// unchanged.
    pub fn run(&self, block_bytes: &[u8]) -> (out: Vec<u8>)
        ensures
            out@ == block_bytes@,
    {
        vstd::slice::slice_to_vec(block_bytes)
    }

    /// Whether a GPU device is available for planning.
    pub fn is_gpu_ready(&self) -> (b: bool)
        ensures
            b == self.has_device(),
    {
        self.gpu_ready
    }
}

} // verus!
