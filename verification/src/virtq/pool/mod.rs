//! Fixed-slot allocation for virtqueue payloads.

use vstd::prelude::*;

pub mod bits;
pub mod free_list;
pub mod slot;

pub use slot::{SlotLayout, SlotPool};

verus! {

/// Buffer allocation failure.
#[derive(Debug, Clone, Copy, PartialEq, Eq, Structural)]
pub enum AllocError {
    /// An address does not identify a live allocation.
    InvalidFree(u64, usize),
    /// An argument is zero or otherwise invalid.
    InvalidArg,
    /// A region cannot hold any allocation.
    EmptyRegion,
    /// No currently free allocation can satisfy the request.
    NoSpace,
    /// The request exceeds the pool's allocation capacity.
    OutOfMemory,
    /// Allocation bookkeeping could not be reserved.
    Bookkeeping,
    /// Address or size arithmetic overflowed.
    Overflow,
}

/// One pool allocation.
#[derive(Debug, Clone, Copy, PartialEq, Eq, Structural)]
pub struct Allocation {
    /// Starting address of the allocation.
    pub addr: u64,
    /// Nonzero descriptor-safe capacity in bytes.
    pub len: u32,
}

} // verus!
