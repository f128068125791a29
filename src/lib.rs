//! Sub-allocators that carve small allocations out of large device memory blocks.
use vstd::prelude::*;

pub mod block;
pub mod general;
pub mod geometry;
pub mod linear;
pub mod memory_type;
pub mod types;

pub use general::{
    BlockRequest, GeneralAllocation, GeneralAllocationDescriptor, GeneralAllocator, Placement,
};
pub use linear::{LinearAllocation, LinearAllocator};
pub use types::{AllocationType, AllocatorError, MemoryLocation};

verus! {

/// Information about an allocation of all allocators.
pub trait Allocation {
    spec fn spec_memory(&self) -> u64;

    spec fn spec_offset(&self) -> u64;

    spec fn spec_size(&self) -> u64;

    /// The raw handle of the device memory block that holds the allocation.
    fn memory(&self) -> (r: u64)
        ensures
            r == self.spec_memory(),
    ;

    /// The offset of the allocation inside its device memory block.
    fn offset(&self) -> (r: u64)
        ensures
            r == self.spec_offset(),
    ;

    /// The size of the allocation.
    fn size(&self) -> (r: u64)
        ensures
            r == self.spec_size(),
    ;
}

/// Trait to query an allocator for some information.
pub trait AllocatorInfo {
    spec fn spec_allocated(&self) -> int;

    spec fn spec_size(&self) -> int;

    spec fn spec_reserved_blocks(&self) -> int;

    /// Allocated memory in bytes.
    fn allocated(&self) -> (r: u64)
        ensures
            r == self.spec_allocated(),
    ;

    /// Reserved memory in bytes.
    fn size(&self) -> (r: u64)
        ensures
            r == self.spec_size(),
    ;

    /// Reserved memory blocks.
    fn reserved_blocks(&self) -> (r: usize)
        ensures
            r == self.spec_reserved_blocks(),
    ;
}

} // verus!
