use vstd::prelude::*;
use crate::block::{end_of, granularity_ok, pair_at, lemma_occupied_sum_nonneg,
    lemma_unoccupied_is_single,lemma_occupied_sum_bound, occupied_sum, fits_in, splice, pieces, released, is_occupied_at, start_in, Block, Chunk};
use crate::geometry::{align_down_spec, align_up_spec, checked_align_up, lemma_align_up};
use crate::linear::{check_power_of_two, is_power_of_two};
use crate::memory_type::{
    chosen_type, find_memory_type_index, none_suitable, preferred_flags, relaxed_flags,
    HOST_VISIBLE, MAX_MEMORY_TYPES,
};
use crate::types::{AllocationType, AllocatorError, MemoryLocation};
use crate::{Allocation, AllocatorInfo};

verus! {

/// What a caller asks the general allocator for.
#[derive(Debug, Clone, Copy, PartialEq, Eq, Structural)]
pub struct GeneralAllocationDescriptor {
    /// Size in bytes.
    pub size: u64,
    /// Alignment in bytes; a power of two.
    pub alignment: u64,
    /// The memory types the resource may live in, one bit per type.
    pub memory_type_bits: u32,
    /// Where the memory should preferably live.
    pub location: MemoryLocation,
    /// The kind of resource.
    pub allocation_type: AllocationType,
}

/// An allocation made by a [`GeneralAllocator`].
#[derive(Debug, Clone, Copy, PartialEq, Eq, Structural)]
pub struct GeneralAllocation {
    /// Raw handle of the device memory block.
    pub memory: u64,
    /// Offset inside the block; also identifies the chunk inside the block.
    pub offset: u64,
    /// Size in bytes.
    pub size: u64,
    /// The memory type of the block.
    pub memory_type_index: usize,
    /// Index of the block inside the allocator.
    pub block_index: usize,
    /// Whether the block is mapped into host memory.
    pub mapped: bool,
}

impl Allocation for GeneralAllocation {
    open spec fn spec_memory(&self) -> u64 {
        self.memory
    }

    open spec fn spec_offset(&self) -> u64 {
        self.offset
    }

    open spec fn spec_size(&self) -> u64 {
        self.size
    }

    fn memory(&self) -> (r: u64) {
        self.memory
    }

    fn offset(&self) -> (r: u64) {
        self.offset
    }

    fn size(&self) -> (r: u64) {
        self.size
    }
}

/// A new device memory block the allocator needs before it can serve a request.
#[derive(Debug, Clone, Copy, PartialEq, Eq, Structural)]
pub struct BlockRequest {
    /// The memory type to allocate from.
    pub memory_type_index: usize,
    /// Size of the block in bytes.
    pub size: u64,
    /// Whether the block must be mapped into host memory.
    pub mappable: bool,
}

/// The outcome of a successful request.
#[derive(Debug, Clone, Copy, PartialEq, Eq, Structural)]
pub enum Placement {
    /// The request was placed in an existing block.
    Placed(GeneralAllocation),
    /// No existing block can hold the request; a new block is needed.
    NeedsBlock(BlockRequest),
}

/// Whether chunk `ci` of block `bi` can hold the request.
pub open spec fn candidate(
    blocks: Seq<Block>,
    t: int,
    bi: int,
    ci: int,
    size: int,
    alignment: int,
    is_linear: bool,
    g: int,
) -> bool {
    0 <= bi < blocks.len() && blocks[bi].memory_type_index == t && fits_in(
        blocks[bi].chunks@,
        ci,
        size,
        alignment,
        is_linear,
        g,
    )
}

/// The space a chunk would have left over around the request.
pub open spec fn waste(blocks: Seq<Block>, bi: int, ci: int, size: int) -> int {
    blocks[bi].chunks@[ci].size - size
}

/// Chunk `(bi, ci)` is at least as good as chunk `(bj, cj)`: it wastes less, or as much
/// and comes first.
pub open spec fn no_worse(blocks: Seq<Block>, bi: int, ci: int, bj: int, cj: int,
    size: int) -> bool {
    waste(blocks, bi, ci, size) < waste(blocks, bj, cj, size) || (waste(blocks, bi, ci, size)
        == waste(blocks, bj, cj, size) && (bi < bj || (bi == bj && ci <= cj)))
}

/// Chunk `(bi, ci)` is the best fit for the request.
pub open spec fn best_fit_at(
    blocks: Seq<Block>,
    t: int,
    bi: int,
    ci: int,
    size: int,
    alignment: int,
    is_linear: bool,
    g: int,
) -> bool {
    &&& candidate(blocks, t, bi, ci, size, alignment, is_linear, g)
    &&& forall|bj: int, cj: int|
        #[trigger] candidate(blocks, t, bj, cj, size, alignment, is_linear, g) ==> no_worse(
            blocks,
            bi,
            ci,
            bj,
            cj,
            size,
        )
}

/// Whether some chunk can hold the request.
pub open spec fn any_candidate(blocks: Seq<Block>, t: int, size: int, alignment: int,
    is_linear: bool, g: int) -> bool {
    exists|bj: int, cj: int| #[trigger] candidate(blocks, t, bj, cj, size, alignment, is_linear, g)
}

/// The number of blocks of memory type `t`.
pub open spec fn count_type(blocks: Seq<Block>, t: int) -> int
    decreases blocks.len(),
{
    if blocks.len() == 0 {
        0
    } else {
        count_type(blocks.drop_last(), t) + if blocks.last().memory_type_index == t {
            1int
        } else {
            0int
        }
    }
}

/// The total size of the blocks.
pub open spec fn total_size(blocks: Seq<Block>) -> int
    decreases blocks.len(),
{
    if blocks.len() == 0 {
        0
    } else {
        total_size(blocks.drop_last()) + blocks.last().size
    }
}

/// The size of a block created for a request of `size` bytes.
pub open spec fn block_size_for(default_block_size: int, size: int, g: int) -> int {
    let rounded = align_up_spec(size, g);
    if rounded > default_block_size {
        rounded
    } else {
        default_block_size
    }
}

/// Replacing a block by one of the same size keeps the total size.
pub proof fn lemma_total_size_update(blocks: Seq<Block>, i: int, b: Block)
    requires
        0 <= i < blocks.len(),
        blocks[i].size == b.size,
    ensures
        total_size(blocks.update(i, b)) == total_size(blocks),
    decreases blocks.len(),
{
    let u = blocks.update(i, b);
    if i == blocks.len() - 1 {
        assert(u.drop_last() =~= blocks.drop_last());
    } else {
        assert(u.drop_last() =~= blocks.drop_last().update(i, b));
        lemma_total_size_update(blocks.drop_last(), i, b);
    }
}

/// `a` was placed at chunk `ci` of its block: the best fit for `desc` among the blocks of
/// the chosen memory type, which `new` holds split around `a`, all else unchanged.
pub open spec fn placed_at(old: GeneralAllocator, new: GeneralAllocator,
    desc: GeneralAllocationDescriptor, a: GeneralAllocation, ci: int) -> bool {
    &&& best_fit_at(old.blocks@, a.memory_type_index as int, a.block_index as int, ci,
        desc.size as int, desc.alignment as int, desc.allocation_type.spec_is_linear(), old.granularity as int)
    &&& a.offset == start_in(old.blocks@[a.block_index as int].chunks@, ci, desc.alignment as int,
        desc.allocation_type.spec_is_linear(), old.granularity as int)
    &&& new.blocks@[a.block_index as int].chunks@ == splice(
        old.blocks@[a.block_index as int].chunks@,
        ci,
        ci + 1,
        pieces(old.blocks@[a.block_index as int].chunks@[ci], a.offset as int, desc.size as int,
            desc.allocation_type),
        )
    &&& desc.size > 0 && is_power_of_two(desc.alignment)
    &&& chosen_type(old.memory_types@, desc.location, desc.memory_type_bits,
        a.memory_type_index as int)
    &&& a.size == desc.size
    &&& a.memory == old.blocks@[a.block_index as int].memory
    &&& a.mapped == old.blocks@[a.block_index as int].mappable
    &&& new.blocks@.len() == old.blocks@.len()
    &&& new.blocks@[a.block_index as int].memory == old.blocks@[a.block_index as int].memory
    &&& new.blocks@[a.block_index as int].size == old.blocks@[a.block_index as int].size
    &&& new.blocks@[a.block_index as int].memory_type_index == a.memory_type_index
    &&& new.blocks@[a.block_index as int].mappable == a.mapped
    &&& forall|j: int| 0 <= j < old.blocks@.len()
        && j != a.block_index ==> #[trigger] new.blocks@[j] == old.blocks@[j]
}

/// The total size of the occupied chunks of all blocks.
pub open spec fn total_allocated(blocks: Seq<Block>) -> int
    decreases blocks.len(),
{
    if blocks.len() == 0 {
        0
    } else {
        total_allocated(blocks.drop_last()) + occupied_sum(blocks.last().chunks@)
    }
}

/// Replacing a block changes the occupied total by the change in that block.
pub proof fn lemma_total_allocated_update(blocks: Seq<Block>, i: int, b: Block)
    requires
        0 <= i < blocks.len(),
    ensures
        total_allocated(blocks.update(i, b)) == total_allocated(blocks) - occupied_sum(
            blocks[i].chunks@,
        ) + occupied_sum(b.chunks@),
    decreases blocks.len(),
{
    let u = blocks.update(i, b);
    if i == blocks.len() - 1 {
        assert(u.drop_last() =~= blocks.drop_last());
    } else {
        assert(u.drop_last() =~= blocks.drop_last().update(i, b));
        lemma_total_allocated_update(blocks.drop_last(), i, b);
    }
}

/// Well formed blocks hold no more occupied bytes than their total size.
pub proof fn lemma_total_allocated_bound(blocks: Seq<Block>, g: int)
    requires
        forall|i: int| 0 <= i < blocks.len() ==> #[trigger] blocks[i].wf(g),
    ensures
        0 <= total_allocated(blocks) <= total_size(blocks),
    decreases blocks.len(),
{
    if blocks.len() > 0 {
        let d = blocks.drop_last();
        assert forall|i: int| 0 <= i < d.len() implies #[trigger] d[i].wf(g) by {
            assert(blocks[i].wf(g));
        }
        lemma_total_allocated_bound(d, g);
        let last = blocks.last();
        assert(blocks[blocks.len() - 1].wf(g));
        lemma_occupied_sum_bound(last.chunks@, 0, last.size as int, g);
    }
}

/// A general-purpose allocator: blocks of device memory per memory type, each cut into
/// chunks, with best-fit placement and merging of free neighbours.
#[derive(Debug, Clone)]
pub struct GeneralAllocator {
    /// Property flags of each memory type of the device.
    pub memory_types: Vec<u32>,
    /// The buffer/image granularity of the device.
    pub granularity: u64,
    /// The size of a new block, unless a request needs more.
    pub default_block_size: u64,
    /// The largest number of blocks per memory type.
    pub max_blocks: usize,
    /// The blocks, in order of creation.
    pub blocks: Vec<Block>,
    /// The total size of the blocks.
    pub reserved: u64,
    /// The total size of the occupied chunks.
    pub allocated: u64,
}

impl GeneralAllocator {
    /// The allocator's invariant.
    pub open spec fn wf(&self) -> bool {
        &&& self.granularity > 0
        &&& self.default_block_size > 0
        &&& self.memory_types@.len() <= MAX_MEMORY_TYPES
        &&& self.reserved == total_size(self.blocks@)
        &&& self.allocated == total_allocated(self.blocks@)
        &&& forall|i: int|
            0 <= i < self.blocks@.len() ==> #[trigger] self.blocks@[i].wf(self.granularity as int)
                && self.blocks@[i].memory_type_index < self.memory_types@.len()
    }

    /// An allocator with no blocks yet.
    pub fn new(memory_types: Vec<u32>, granularity: u64, default_block_size: u64,
        max_blocks: usize) -> (r: Self)
        requires
            memory_types@.len() <= MAX_MEMORY_TYPES,
            granularity > 0,
            default_block_size > 0,
        ensures
            r.wf(),
            r.memory_types@ == memory_types@,
            r.granularity == granularity,
            r.default_block_size == default_block_size,
            r.max_blocks == max_blocks,
            r.blocks@.len() == 0,
    {
        GeneralAllocator { memory_types, granularity, default_block_size, max_blocks,
            blocks: Vec::new(), reserved: 0, allocated: 0 }
    }

    /// The number of blocks of memory type `t`.
    pub fn blocks_of_type(&self, t: usize) -> (r: usize)
        ensures
            r == count_type(self.blocks@, t as int),
    {
        let mut count: usize = 0;
        let mut i: usize = 0;
        while i < self.blocks.len()
            invariant
                i <= self.blocks@.len(),
                count == count_type(self.blocks@.subrange(0, i as int), t as int),
                count <= i,
            decreases self.blocks@.len() - i,
        {
            assert(self.blocks@.subrange(0, i + 1).drop_last() =~= self.blocks@.subrange(0,
                i as int));
            if self.blocks[i].memory_type_index == t {
                count = count + 1;
            }
            i = i + 1;
        }
        assert(self.blocks@.subrange(0, i as int) =~= self.blocks@);
        count
    }

    /// The best-fitting chunk of a block of memory type `t` for the request, with where
    /// the request would start in it.
    pub fn best_fit(&self, t: usize, size: u64, alignment: u64,
        is_linear: bool) -> (r: Option<(usize, usize, u64)>)
        requires
            self.wf(),
            alignment > 0,
        ensures
            match r {
                Some((bi, ci, start)) => best_fit_at(self.blocks@, t as int, bi as int, ci as int,
                    size as int, alignment as int, is_linear, self.granularity as int)
                    && start == start_in(self.blocks@[bi as int].chunks@, ci as int,
                        alignment as int, is_linear, self.granularity as int),
                None => !any_candidate(self.blocks@, t as int, size as int, alignment as int,
                    is_linear, self.granularity as int),
            },
    {
        let ghost bs = self.blocks@;
        let ghost g = self.granularity as int;
        let mut best: Option<(usize, usize, u64)> = None;
        let mut bi: usize = 0;
        while bi < self.blocks.len()
            invariant
                self.wf(),
                bs == self.blocks@,
                g == self.granularity as int,
                alignment > 0,
                bi <= bs.len(),
                match best {
                    Some((b, c, st)) => candidate(bs, t as int, b as int, c as int, size as int,
                        alignment as int, is_linear, g)
                        && st == start_in(bs[b as int].chunks@, c as int, alignment as int,
                            is_linear, g)
                        && (b as int) < bi
                        && forall|bj: int, cj: int| #[trigger] candidate(bs, t as int, bj, cj,
                            size as int, alignment as int, is_linear, g) && bj < bi
                            ==> no_worse(bs, b as int, c as int, bj, cj, size as int),
                    None => forall|bj: int, cj: int| #[trigger] candidate(bs, t as int, bj, cj,
                        size as int, alignment as int, is_linear, g) ==> bj >= bi,
                },
            decreases bs.len() - bi,
        {
            let block = &self.blocks[bi];
            assert(block.wf(g));
            if block.memory_type_index == t {
                let mut ci: usize = 0;
                while ci < block.chunks.len()
                    invariant
                        self.wf(),
                        bs == self.blocks@,
                        g == self.granularity as int,
                        alignment > 0,
                        bi < bs.len(),
                        *block == bs[bi as int],
                        block.wf(g),
                        block.memory_type_index == t,
                        ci <= block.chunks@.len(),
                        match best {
                            Some((b, c, st)) => candidate(bs, t as int, b as int, c as int,
                                size as int, alignment as int, is_linear, g)
                                && st == start_in(bs[b as int].chunks@, c as int, alignment as int,
                                    is_linear, g)
                                && ((b as int) < bi || ((b as int) == bi && (c as int) < ci))
                                && forall|bj: int, cj: int| #[trigger] candidate(bs, t as int, bj,
                                    cj, size as int, alignment as int, is_linear, g)
                                        && (bj < bi || (bj == bi && cj < ci))
                                    ==> no_worse(bs, b as int, c as int, bj, cj, size as int),
                            None => forall|bj: int, cj: int| #[trigger] candidate(bs, t as int, bj,
                                cj, size as int, alignment as int, is_linear, g) ==> (bj > bi
                                    || (bj == bi && cj >= ci)),
                        },
                    decreases block.chunks@.len() - ci,
                {
                    let found = block.placement_in(ci, size, alignment, is_linear,
                        self.granularity);
                    match found {
                        Some(start) => {
                            assert(candidate(bs, t as int, bi as int, ci as int, size as int,
                                alignment as int, is_linear, g));
                            let w = block.chunks[ci].size - size;
                            let better = match best {
                                Some((b, c, _)) => w < self.blocks[b].chunks[c].size - size,
                                None => true,
                            };
                            if better {
                                proof {
                                    assert forall|bj: int, cj: int| #[trigger] candidate(bs,
                                        t as int, bj, cj, size as int, alignment as int, is_linear, g) && (bj < bi || (bj == bi && cj < ci))
                                        implies no_worse(bs, bi as int, ci as int, bj, cj,
                                            size as int) by {
                                        match best {
                                            Some((b, c, st)) => {
                                                assert(no_worse(bs, b as int, c as int, bj, cj,
                                                    size as int));
                                            },
                                            None => {},
                                        }
                                    }
                                }
                                best = Some((bi, ci, start));
                            }
                            proof {
                                match best {
                                    Some((b, c, st)) => {
                                        assert(no_worse(bs, b as int, c as int, bi as int,
                                            ci as int, size as int));
                                    },
                                    None => {},
                                }
                            }
                        },
                        None => {
                            assert(!candidate(bs, t as int, bi as int, ci as int, size as int,
                                alignment as int, is_linear, g));
                        },
                    }
                    proof {
                        match best {
                            Some((b, c, st)) => {
                                assert forall|bj: int, cj: int| #[trigger] candidate(bs, t as int,
                                    bj, cj, size as int, alignment as int, is_linear, g)
                                        && (bj < bi || (bj == bi && cj < ci + 1))
                                    implies no_worse(bs, b as int, c as int, bj, cj,
                                        size as int) by {
                                    if bj == bi && cj == ci {
                                    }
                                }
                            },
                            None => {
                                assert forall|bj: int, cj: int| #[trigger] candidate(bs, t as int,
                                    bj, cj, size as int, alignment as int, is_linear, g)
                                    implies (bj > bi || (bj == bi && cj >= ci + 1)) by {
                                    if bj == bi && cj == ci {
                                    }
                                }
                            },
                        }
                    }
                    ci = ci + 1;
                }
                proof {
                    match best {
                        Some((b, c, st)) => {
                            assert forall|bj: int, cj: int| #[trigger] candidate(bs, t as int, bj,
                                cj, size as int, alignment as int, is_linear, g) && bj < bi + 1
                                implies no_worse(bs, b as int, c as int, bj, cj, size as int) by {
                                if bj == bi {
                                    assert(cj < ci);
                                }
                            }
                        },
                        None => {},
                    }
                }
            } else {
                proof {
                    match best {
                        Some((b, c, st)) => {
                            assert forall|bj: int, cj: int| #[trigger] candidate(bs, t as int, bj,
                                cj, size as int, alignment as int, is_linear, g) && bj < bi + 1
                                implies no_worse(bs, b as int, c as int, bj, cj, size as int) by {
                                assert(bj != bi);
                            }
                        },
                        None => {
                            assert forall|bj: int, cj: int| #[trigger] candidate(bs, t as int, bj,
                                cj, size as int, alignment as int, is_linear, g)
                                implies bj >= bi + 1 by {
                                assert(bj != bi);
                            }
                        },
                    }
                }
            }
            bi = bi + 1;
        }
        best
    }

    /// Serves a request from an existing block of the chosen memory type, at the best-fitting
    /// free chunk; or says which new block would serve it.
    pub fn allocate(&mut self, desc: &GeneralAllocationDescriptor) -> (r: Result<Placement,
        AllocatorError>)
        requires
            old(self).wf(),
        ensures
            final(self).wf(),
            final(self).memory_types@ == old(self).memory_types@,
            final(self).granularity == old(self).granularity,
            final(self).default_block_size == old(self).default_block_size,
            final(self).max_blocks == old(self).max_blocks,
            desc.size == 0 ==> r == Err::<Placement, AllocatorError>(AllocatorError::InvalidSize),
            desc.size > 0
                && !is_power_of_two(desc.alignment) ==> r == Err::<Placement, AllocatorError>(
                AllocatorError::InvalidAlignment,
            ),
            desc.size > 0 && is_power_of_two(desc.alignment) && none_suitable(
                old(self).memory_types@,
                desc.memory_type_bits,
                preferred_flags(desc.location),
            ) && none_suitable(old(self).memory_types@, desc.memory_type_bits, relaxed_flags(desc.location))
                ==> r == Err::<Placement, AllocatorError>(AllocatorError::NoCompatibleMemoryTypeFound),
            match r {
                Ok(Placement::Placed(a)) => exists|ci: int| #[trigger] placed_at(*old(self),
                    *final(self), *desc, a, ci),
                Ok(Placement::NeedsBlock(req)) => desc.size > 0 && is_power_of_two(desc.alignment)
                    && chosen_type(old(self).memory_types@, desc.location, desc.memory_type_bits,
                        req.memory_type_index as int)
                    && !any_candidate(old(self).blocks@, req.memory_type_index as int,
                        desc.size as int, desc.alignment as int, desc.allocation_type.spec_is_linear(), old(self).granularity as int)
                    && count_type(old(self).blocks@,
                        req.memory_type_index as int) < old(self).max_blocks
                    && req.size == block_size_for(old(self).default_block_size as int,
                        desc.size as int, old(self).granularity as int)
                    && req.mappable == (old(self).memory_types@[req.memory_type_index as int] & HOST_VISIBLE != 0)
                    && final(self).blocks@ == old(self).blocks@,
                Err(AllocatorError::OutOfMemory) => desc.size > 0 && is_power_of_two(desc.alignment)
                    && exists|t: int| #[trigger] chosen_type(old(self).memory_types@, desc.location,
                        desc.memory_type_bits, t)
                    && !any_candidate(old(self).blocks@, t, desc.size as int, desc.alignment as int,
                        desc.allocation_type.spec_is_linear(), old(self).granularity as int)
                    && (count_type(old(self).blocks@, t) >= old(self).max_blocks
                        || block_size_for(old(self).default_block_size as int, desc.size as int,
                            old(self).granularity as int) > u64::MAX)
                    && final(self).blocks@ == old(self).blocks@,
                Err(AllocatorError::InvalidSize) => desc.size == 0,
                Err(AllocatorError::InvalidAlignment) => desc.size > 0
                    && !is_power_of_two(desc.alignment),
                Err(AllocatorError::NoCompatibleMemoryTypeFound) => desc.size > 0
                    && is_power_of_two(desc.alignment)
                    && none_suitable(old(self).memory_types@, desc.memory_type_bits,
                        preferred_flags(desc.location))
                    && none_suitable(old(self).memory_types@, desc.memory_type_bits,
                        relaxed_flags(desc.location)),
                Err(AllocatorError::FailedToMap) => false,
            },
            r is Err ==> final(self).blocks@ == old(self).blocks@,
            final(self).reserved == old(self).reserved,
            r is Ok && r->Ok_0 is Placed
                ==> final(self).allocated == old(self).allocated + desc.size
                && r->Ok_0->Placed_0.offset % desc.alignment == 0,
            !(r is Ok && r->Ok_0 is Placed) ==> final(self).allocated == old(self).allocated,
    {
        let ghost old_self = *self;
        if desc.size == 0 {
            return Err(AllocatorError::InvalidSize);
        }
        if !check_power_of_two(desc.alignment) {
            return Err(AllocatorError::InvalidAlignment);
        }
        let t = match find_memory_type_index(&self.memory_types, desc.location,
            desc.memory_type_bits) {
            Ok(t) => t,
            Err(e) => return Err(e),
        };
        let is_linear = desc.allocation_type.is_linear();
        match self.best_fit(t, desc.size, desc.alignment, is_linear) {
            Some((bi, ci, start)) => {
                let ghost old_blocks = self.blocks@;
                let g = self.granularity;
                assert(self.blocks@[bi as int].wf(g as int));
                let memory = self.blocks[bi].memory;
                let mapped = self.blocks[bi].mappable;
                self.blocks[bi].occupy(ci, start, desc.size, desc.alignment, desc.allocation_type,
                    g);
                proof {
                    lemma_total_size_update(old_blocks, bi as int, self.blocks@[bi as int]);
                    lemma_total_allocated_update(old_blocks, bi as int, self.blocks@[bi as int]);
                    assert(self.blocks@ =~= old_blocks.update(bi as int, self.blocks@[bi as int]));
                    assert forall|i: int| 0 <= i < self.blocks@.len() implies #[trigger] self.blocks@[i].wf(g as int)
                        && self.blocks@[i].memory_type_index < self.memory_types@.len() by {
                        if i != bi {
                            assert(self.blocks@[i] == old_blocks[i]);
                            assert(old_blocks[i].wf(g as int));
                        } else {
                            assert(old_blocks[i].memory_type_index < self.memory_types@.len());
                        }
                    }
                    lemma_total_allocated_bound(self.blocks@, g as int);
                    let c = old_blocks[bi as int].chunks@[ci as int];
                    lemma_align_up(c.offset as int, desc.alignment as int);
                    lemma_align_up(align_up_spec(c.offset as int, g as int), desc.alignment as int);
                }
                self.allocated = self.allocated + desc.size;
                let a = GeneralAllocation { memory, offset: start, size: desc.size,
                    memory_type_index: t, block_index: bi, mapped };
                assert(placed_at(old_self, *self, *desc, a, ci as int));
                let r: Result<Placement, AllocatorError> = Ok(Placement::Placed(a));
                assert(r->Ok_0->Placed_0 == a);
                r
            },
            None => {
                let count = self.blocks_of_type(t);
                if count >= self.max_blocks {
                    return Err(AllocatorError::OutOfMemory);
                }
                let rounded = match checked_align_up(desc.size, self.granularity) {
                    Some(v) => v,
                    None => return Err(AllocatorError::OutOfMemory),
                };
                let size = if rounded > self.default_block_size { rounded } else { self.default_block_size };
                let mappable = self.memory_types[t] & HOST_VISIBLE != 0;
                assert(self.wf());
                Ok(Placement::NeedsBlock(BlockRequest { memory_type_index: t, size, mappable }))
            },
        }
    }

    /// Adds the block `memory`, made as `request` asked, and places the request at its start.
    pub fn allocate_in_new_block(
        &mut self,
        desc: &GeneralAllocationDescriptor,
        request: BlockRequest,
        memory: u64,
    ) -> (r: Result<GeneralAllocation, AllocatorError>)
        requires
            old(self).wf(),
        ensures
            final(self).wf(),
            final(self).memory_types@ == old(self).memory_types@,
            final(self).granularity == old(self).granularity,
            final(self).default_block_size == old(self).default_block_size,
            final(self).max_blocks == old(self).max_blocks,
            desc.size == 0
                ==> r == Err::<GeneralAllocation, AllocatorError>(AllocatorError::InvalidSize),
            desc.size > 0
                && !is_power_of_two(desc.alignment)
                    ==> r == Err::<GeneralAllocation, AllocatorError>(
                AllocatorError::InvalidAlignment,
            ),
            desc.size > 0 && is_power_of_two(desc.alignment)
                && (request.memory_type_index >= old(self).memory_types@.len()
                || request.size < desc.size || count_type(old(self).blocks@,
                    request.memory_type_index as int) >= old(self).max_blocks
                || old(self).reserved + request.size > u64::MAX)
                    ==> r == Err::<GeneralAllocation, AllocatorError>(AllocatorError::OutOfMemory),
            r is Err ==> (r->Err_0 == AllocatorError::InvalidSize && desc.size == 0) || (r->Err_0
                == AllocatorError::InvalidAlignment && desc.size > 0
                    && !is_power_of_two(desc.alignment)) || (
            r->Err_0 == AllocatorError::OutOfMemory && desc.size > 0
                && is_power_of_two(desc.alignment) && (
            request.memory_type_index >= old(self).memory_types@.len() || request.size < desc.size
                || count_type(old(self).blocks@,
                    request.memory_type_index as int) >= old(self).max_blocks
                || old(self).reserved + request.size > u64::MAX)),
            r is Err ==> final(self).blocks@ == old(self).blocks@
                && final(self).reserved == old(self).reserved
                && final(self).allocated == old(self).allocated,
            r is Ok ==> final(self).reserved == old(self).reserved + request.size
                && final(self).allocated
                == old(self).allocated + desc.size,
            r is Ok ==> {
                let a = r->Ok_0;
                let n = old(self).blocks@.len() as int;
                &&& a == (GeneralAllocation { memory, offset: 0, size: desc.size,
                    memory_type_index: request.memory_type_index, block_index: n as usize, mapped: request.mappable })
                &&& final(self).blocks@.len() == n + 1
                &&& final(self).blocks@.subrange(0, n) == old(self).blocks@
                &&& final(self).blocks@[n].memory == memory
                &&& final(self).blocks@[n].size == request.size
                &&& final(self).blocks@[n].memory_type_index == request.memory_type_index
                &&& final(self).blocks@[n].mappable == request.mappable
                &&& final(self).blocks@[n].chunks@ == pieces(
                    Chunk { offset: 0, size: request.size, is_free: true,
                        allocation_type: AllocationType::Buffer },
                    0,
                    desc.size as int,
                    desc.allocation_type,
                )
            },
    {
        if desc.size == 0 {
            return Err(AllocatorError::InvalidSize);
        }
        if !check_power_of_two(desc.alignment) {
            return Err(AllocatorError::InvalidAlignment);
        }
        if request.memory_type_index >= self.memory_types.len() || request.size < desc.size {
            return Err(AllocatorError::OutOfMemory);
        }
        if self.blocks_of_type(request.memory_type_index) >= self.max_blocks {
            return Err(AllocatorError::OutOfMemory);
        }
        if request.size > u64::MAX - self.reserved {
            return Err(AllocatorError::OutOfMemory);
        }
        let ghost old_blocks = self.blocks@;
        let n = self.blocks.len();
        let g = self.granularity;
        let block = Block::new(memory, request.size, request.memory_type_index, request.mappable);
        let ghost whole = block.chunks@;
        assert(block.wf(g as int));
        self.blocks.push(block);
        self.reserved = self.reserved + request.size;
        proof {
            assert(self.blocks@.drop_last() =~= old_blocks);
            lemma_align_up(0, desc.alignment as int);
            assert(whole.drop_last() =~= Seq::<Chunk>::empty());
            assert(occupied_sum(Seq::<Chunk>::empty()) == 0);
            assert(occupied_sum(whole) == 0);
            assert(total_allocated(self.blocks@) == total_allocated(old_blocks));
            lemma_align_up(0, desc.alignment as int);
            assert(start_in(whole, 0, desc.alignment as int, desc.allocation_type.spec_is_linear(),
                g as int) == 0);
        }
        self.blocks[n].occupy(0, 0, desc.size, desc.alignment, desc.allocation_type, g);
        proof {
            let last = self.blocks@[n as int];
            lemma_total_size_update(old_blocks.push(block), n as int, last);
            lemma_total_allocated_update(old_blocks.push(block), n as int, last);
            assert(self.blocks@ =~= old_blocks.push(block).update(n as int, last));
            assert forall|i: int| 0 <= i < self.blocks@.len() implies #[trigger] self.blocks@[i].wf(self.granularity as int)
                && self.blocks@[i].memory_type_index < self.memory_types@.len() by {
                if i < n {
                    assert(self.blocks@[i] == old_blocks[i]);
                }
            }
            lemma_total_allocated_bound(self.blocks@, g as int);
            assert(self.blocks@.subrange(0, n as int) =~= old_blocks);
            assert(splice(whole, 0, 1, pieces(whole[0], 0, desc.size as int,
                desc.allocation_type)) =~= pieces(whole[0], 0, desc.size as int, desc.allocation_type));
        }
        self.allocated = self.allocated + desc.size;
        assert(self.wf());
        Ok(GeneralAllocation { memory, offset: 0, size: desc.size,
            memory_type_index: request.memory_type_index, block_index: n, mapped: request.mappable })
    }

    /// Gives an allocation back: its chunk becomes free and merges with free neighbours.
    /// Returns false, and changes nothing, when the allocation is not live here.
    pub fn free(&mut self, allocation: &GeneralAllocation) -> (r: bool)
        requires
            old(self).wf(),
        ensures
            final(self).wf(),
            final(self).memory_types@ == old(self).memory_types@,
            final(self).granularity == old(self).granularity,
            final(self).default_block_size == old(self).default_block_size,
            final(self).max_blocks == old(self).max_blocks,
            final(self).blocks@.len() == old(self).blocks@.len(),
            r == (allocation.block_index < old(self).blocks@.len() && exists|i: int|
                #[trigger] is_occupied_at(old(self).blocks@[allocation.block_index as int].chunks@,
                    i, allocation.offset, allocation.size)),
            !r ==> final(self).blocks@ == old(self).blocks@,
            r ==> exists|i: int|
                #[trigger] is_occupied_at(old(self).blocks@[allocation.block_index as int].chunks@,
                    i, allocation.offset, allocation.size)
                && final(self).blocks@[allocation.block_index as int].chunks@ == released(old(self).blocks@[allocation.block_index as int].chunks@, i),
            r ==> forall|j: int| 0 <= j < old(self).blocks@.len()
                && j != allocation.block_index
                    ==> #[trigger] final(self).blocks@[j] == old(self).blocks@[j],
            r ==> final(self).blocks@[allocation.block_index as int].size == old(self).blocks@[allocation.block_index as int].size,
            final(self).reserved == old(self).reserved,
            r ==> final(self).allocated == old(self).allocated - allocation.size,
            !r ==> final(self).allocated == old(self).allocated,
    {
        let bi = allocation.block_index;
        if bi >= self.blocks.len() {
            return false;
        }
        let ghost old_blocks = self.blocks@;
        let g = self.granularity;
        assert(self.blocks@[bi as int].wf(g as int));
        let done = self.blocks[bi].release(allocation.offset, allocation.size, g);
        proof {
            lemma_total_size_update(old_blocks, bi as int, self.blocks@[bi as int]);
            lemma_total_allocated_update(old_blocks, bi as int, self.blocks@[bi as int]);
            assert(self.blocks@ =~= old_blocks.update(bi as int, self.blocks@[bi as int]));
            assert forall|i: int| 0 <= i < self.blocks@.len() implies #[trigger] self.blocks@[i].wf(g as int)
                && self.blocks@[i].memory_type_index < self.memory_types@.len() by {
                if i != bi {
                    assert(self.blocks@[i] == old_blocks[i]);
                    assert(old_blocks[i].wf(g as int));
                }
            }
            lemma_total_allocated_bound(self.blocks@, g as int);
            if !done {
                assert(self.blocks@ =~= old_blocks);
            }
        }
        if done {
            self.allocated = self.allocated - allocation.size;
        }
        assert(self.wf());
        done
    }
}

/// When no block holds an occupied byte, each block is a single free chunk spanning it:
/// freeing everything that was allocated, in any order, leaves one free chunk per block.
pub proof fn lemma_all_freed(a: GeneralAllocator)
    requires
        a.wf(),
        a.allocated == 0,
    ensures
        forall|i: int|
            0 <= i < a.blocks@.len() ==> (#[trigger] a.blocks@[i]).chunks@.len() == 1
                && a.blocks@[i].chunks@[0].is_free && a.blocks@[i].chunks@[0].offset == 0
                && a.blocks@[i].chunks@[0].size == a.blocks@[i].size,
{
    lemma_zero_total_allocated(a.blocks@);
    assert forall|i: int| 0 <= i < a.blocks@.len() implies (#[trigger] a.blocks@[i]).chunks@.len() == 1
        && a.blocks@[i].chunks@[0].is_free && a.blocks@[i].chunks@[0].offset == 0
        && a.blocks@[i].chunks@[0].size == a.blocks@[i].size by {
        assert(a.blocks@[i].wf(a.granularity as int));
        lemma_unoccupied_is_single(a.blocks@[i].chunks@, a.granularity as int);
    }
}

/// A zero occupied total means no block holds an occupied byte.
proof fn lemma_zero_total_allocated(blocks: Seq<Block>)
    requires
        total_allocated(blocks) == 0,
    ensures
        forall|i: int| 0 <= i < blocks.len() ==> occupied_sum((#[trigger] blocks[i]).chunks@) == 0,
    decreases blocks.len(),
{
    if blocks.len() > 0 {
        let d = blocks.drop_last();
        lemma_total_allocated_nonneg(d);
        lemma_occupied_sum_nonneg(blocks.last().chunks@);
        lemma_zero_total_allocated(d);
        assert forall|i: int| 0 <= i < blocks.len() implies occupied_sum((#[trigger] blocks[i]).chunks@) == 0 by {
            if i < blocks.len() - 1 {
                assert(blocks[i] == d[i]);
            }
        }
    }
}

/// The occupied total of all blocks is never negative.
proof fn lemma_total_allocated_nonneg(blocks: Seq<Block>)
    ensures
        total_allocated(blocks) >= 0,
    decreases blocks.len(),
{
    if blocks.len() > 0 {
        lemma_total_allocated_nonneg(blocks.drop_last());
        lemma_occupied_sum_nonneg(blocks.last().chunks@);
    }
}

impl AllocatorInfo for GeneralAllocator {
    open spec fn spec_allocated(&self) -> int {
        self.allocated as int
    }

    open spec fn spec_size(&self) -> int {
        self.reserved as int
    }

    open spec fn spec_reserved_blocks(&self) -> int {
        self.blocks@.len() as int
    }

    fn allocated(&self) -> (r: u64) {
        self.allocated
    }

    fn size(&self) -> (r: u64) {
        self.reserved
    }

    fn reserved_blocks(&self) -> (r: usize) {
        self.blocks.len()
    }
}

/// Between calls, the chunks of every block partition `[0, size)` in order with no gap or
/// overlap, no two neighbouring chunks are both free, and two neighbouring occupied chunks
/// of different linearity never share a granularity page.
pub proof fn lemma_block_layout(a: GeneralAllocator, bi: int, i: int)
    requires
        a.wf(),
        0 <= bi < a.blocks@.len(),
        0 <= i < a.blocks@[bi].chunks@.len(),
    ensures
        ({
            let s = a.blocks@[bi].chunks@;
            let g = a.granularity as int;
            &&& s[0].offset == 0
            &&& end_of(s.last()) == a.blocks@[bi].size
            &&& s[i].size > 0
            &&& i + 1 < s.len() ==> {
                &&& end_of(s[i]) == s[i + 1].offset
                &&& !(s[i].is_free && s[i + 1].is_free)
                &&& (!s[i].is_free && !s[i + 1].is_free && s[i].allocation_type.spec_is_linear()
                    != s[i + 1].allocation_type.spec_is_linear())
                        ==> align_down_spec(end_of(s[i]) - 1, g)
                    != align_down_spec(s[i + 1].offset as int, g)
            }
        }),
{
    let s = a.blocks@[bi].chunks@;
    assert(a.blocks@[bi].wf(a.granularity as int));
    assert(s[i].size > 0);
    if i + 1 < s.len() {
        assert(pair_at(s, i, a.granularity as int));
        reveal(granularity_ok);
    }
}

} // verus!
