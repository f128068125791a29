use vstd::prelude::*;
use crate::geometry::{
    align_up_spec, lemma_align_up, lemma_align_up_monotone, checked_align_up, has_granularity_conflict, is_on_same_page, same_page_spec,
};
use crate::types::{AllocationType, AllocatorError};
use crate::{Allocation, AllocatorInfo};

verus! {

/// Whether `alignment` is a power of two.
pub open spec fn is_power_of_two(alignment: u64) -> bool {
    alignment > 0 && alignment & ((alignment - 1) as u64) == 0
}

/// Tests whether `alignment` is a power of two.
pub fn check_power_of_two(alignment: u64) -> (r: bool)
    ensures
        r == is_power_of_two(alignment),
{
    alignment > 0 && alignment & (alignment - 1) == 0
}

/// An allocation made by a [`LinearAllocator`].
#[derive(Debug, Clone, Copy, PartialEq, Eq, Structural)]
pub struct LinearAllocation {
    /// Raw handle of the device memory block.
    pub memory: u64,
    /// Offset inside the block.
    pub offset: u64,
    /// Size in bytes.
    pub size: u64,
}

impl Allocation for LinearAllocation {
    open spec fn spec_memory(&self) -> u64 {
        self.memory
    }

    open spec fn spec_offset(&self) -> u64 {
        self.offset
    }

    open spec fn spec_size(&self) -> u64 {
        self.size
    }

    fn memory(&self) -> (r: u64) {
        self.memory
    }

    fn offset(&self) -> (r: u64) {
        self.offset
    }

    fn size(&self) -> (r: u64) {
        self.size
    }
}

/// A bump allocator over one device memory block. Allocations only advance a cursor;
/// memory comes back all at once through [`LinearAllocator::free_all`].
#[derive(Debug, Clone)]
pub struct LinearAllocator {
    /// Raw handle of the device memory block.
    pub memory: u64,
    /// Size of the block in bytes.
    pub block_size: u64,
    /// The buffer/image granularity of the device.
    pub granularity: u64,
    /// The first byte after the last allocation.
    pub offset: u64,
    /// End offset and linearity of the previous allocation, if any.
    pub previous: Option<(u64, bool)>,
}

impl LinearAllocator {
    /// The allocator's invariant: the cursor lies in the block, and the previous
    /// allocation, if any, ends at the cursor.
    pub open spec fn wf(&self) -> bool {
        &&& self.granularity > 0
        &&& self.offset <= self.block_size
        &&& match self.previous {
            Some((end, _)) => end == self.offset && end >= 1,
            None => true,
        }
    }

    /// Where a request of `alignment` and linearity `is_linear` would start.
    pub open spec fn placement(&self, alignment: u64, is_linear: bool) -> int {
        let start = align_up_spec(self.offset as int, alignment as int);
        match self.previous {
            Some((end, prev_linear)) => if prev_linear != is_linear && same_page_spec(
                end - 1,
                1,
                start,
                self.granularity as int,
            ) {
                align_up_spec(
                    align_up_spec(end as int, self.granularity as int),
                    alignment as int,
                )
            } else {
                start
            },
            None => start,
        }
    }

    /// The state after every allocation has been given back.
    pub open spec fn after_free_all(self) -> LinearAllocator {
        LinearAllocator { offset: 0, previous: None, ..self }
    }

    /// A linear allocator over the block `memory` of `block_size` bytes.
    pub fn new(memory: u64, block_size: u64, granularity: u64) -> (r: Self)
        requires
            granularity > 0,
        ensures
            r.wf(),
            r == (LinearAllocator { memory, block_size, granularity, offset: 0, previous: None }),
    {
        LinearAllocator { memory, block_size, granularity, offset: 0, previous: None }
    }

    /// Places `size` bytes at the first legal offset after the previous allocation.
    pub fn allocate(&mut self, size: u64, alignment: u64, allocation_type: AllocationType) -> (r:
        Result<LinearAllocation, AllocatorError>)
        requires
            old(self).wf(),
        ensures
            final(self).wf(),
            size == 0 ==> r == Err::<LinearAllocation, AllocatorError>(AllocatorError::InvalidSize),
            size > 0 && !is_power_of_two(alignment) ==> r == Err::<
                LinearAllocation,
                AllocatorError,
            >(AllocatorError::InvalidAlignment),
            size > 0 && is_power_of_two(alignment) ==> {
                let start = old(self).placement(alignment, allocation_type.spec_is_linear());
                if start + size > old(self).block_size {
                    r == Err::<LinearAllocation, AllocatorError>(AllocatorError::OutOfMemory)
                } else {
                    &&& r == Ok::<LinearAllocation, AllocatorError>(
                        LinearAllocation { memory: old(self).memory, offset: start as u64, size },
                    )
                    &&& *final(self) == (LinearAllocator {
                        offset: (start + size) as u64,
                        previous: Some(((start + size) as u64, allocation_type.spec_is_linear())),
                        ..*old(self)
                    })
                }
            },
            r is Err ==> *final(self) == *old(self),
            r is Ok ==> r->Ok_0.offset % alignment == 0,
    {
        if size == 0 {
            return Err(AllocatorError::InvalidSize);
        }
        if !check_power_of_two(alignment) {
            return Err(AllocatorError::InvalidAlignment);
        }
        let is_linear = allocation_type.is_linear();
        proof {
            lemma_placement_bound(*self, alignment, is_linear);
        }
        let start = match checked_align_up(self.offset, alignment) {
            Some(v) => v,
            None => return Err(AllocatorError::OutOfMemory),
        };
        let start = match self.previous {
            Some((end, prev_linear)) => {
                if has_granularity_conflict(prev_linear, is_linear) && is_on_same_page(
                    end - 1,
                    1,
                    start,
                    self.granularity,
                ) {
                    let pushed = match checked_align_up(end, self.granularity) {
                        Some(v) => v,
                        None => return Err(AllocatorError::OutOfMemory),
                    };
                    match checked_align_up(pushed, alignment) {
                        Some(v) => v,
                        None => return Err(AllocatorError::OutOfMemory),
                    }
                } else {
                    start
                }
            },
            None => start,
        };
        if start > self.block_size || size > self.block_size - start {
            return Err(AllocatorError::OutOfMemory);
        }
        let end = start + size;
        self.offset = end;
        self.previous = Some((end, is_linear));
        Ok(LinearAllocation { memory: self.memory, offset: start, size })
    }

    /// Gives back every allocation at once.
    pub fn free_all(&mut self)
        requires
            old(self).wf(),
        ensures
            final(self).wf(),
            *final(self) == old(self).after_free_all(),
    {
        self.offset = 0;
        self.previous = None;
    }
}

/// A placement never comes before the cursor rounded up to the alignment.
proof fn lemma_placement_bound(a: LinearAllocator, alignment: u64, is_linear: bool)
    requires
        a.wf(),
        alignment > 0,
    ensures
        a.placement(alignment, is_linear) >= align_up_spec(a.offset as int, alignment as int),
        a.placement(alignment, is_linear) % alignment as int == 0,
{
    lemma_align_up(a.offset as int, alignment as int);
    lemma_align_up(align_up_spec(a.offset as int, a.granularity as int), alignment as int);
    lemma_align_up(a.offset as int, a.granularity as int);
    lemma_align_up_monotone(
        a.offset as int,
        align_up_spec(a.offset as int, a.granularity as int),
        alignment as int,
    );
}

/// Freeing everything twice leaves the same state as freeing it once.
pub proof fn lemma_free_all_idempotent(a: LinearAllocator)
    ensures
        a.after_free_all().after_free_all() == a.after_free_all(),
{
}

impl AllocatorInfo for LinearAllocator {
    open spec fn spec_allocated(&self) -> int {
        self.offset as int
    }

    open spec fn spec_size(&self) -> int {
        self.block_size as int
    }

    open spec fn spec_reserved_blocks(&self) -> int {
        1
    }

    fn allocated(&self) -> (r: u64) {
        self.offset
    }

    fn size(&self) -> (r: u64) {
        self.block_size
    }

    fn reserved_blocks(&self) -> (r: usize) {
        1
    }
}

} // verus!
