use vk_alloc::general::{
    GeneralAllocation, GeneralAllocationDescriptor, GeneralAllocator, Placement,
};
use vk_alloc::memory_type::{DEVICE_LOCAL, HOST_COHERENT, HOST_VISIBLE};
use vk_alloc::{Allocation, AllocationType, AllocatorError, AllocatorInfo, MemoryLocation};

const MIB: u64 = 1024 * 1024;

fn allocator(granularity: u64, block_size: u64, max_blocks: usize) -> GeneralAllocator {
    GeneralAllocator::new(
        vec![DEVICE_LOCAL, HOST_VISIBLE | HOST_COHERENT],
        granularity,
        block_size,
        max_blocks,
    )
}

fn desc(size: u64, alignment: u64, allocation_type: AllocationType) -> GeneralAllocationDescriptor {
    GeneralAllocationDescriptor {
        size,
        alignment,
        memory_type_bits: 0b11,
        location: MemoryLocation::GpuOnly,
        allocation_type,
    }
}

/// Allocates, handing out a fresh block handle whenever the allocator asks for one.
fn place(a: &mut GeneralAllocator, d: &GeneralAllocationDescriptor) -> Result<GeneralAllocation, AllocatorError> {
    match a.allocate(d)? {
        Placement::Placed(x) => Ok(x),
        Placement::NeedsBlock(request) => {
            let memory = 100 + a.reserved_blocks() as u64;
            a.allocate_in_new_block(d, request, memory)
        }
    }
}

fn chunk_states(a: &GeneralAllocator, block: usize) -> Vec<(u64, u64, bool)> {
    a.blocks[block].chunks.iter().map(|c| (c.offset, c.size, c.is_free)).collect()
}

#[test]
fn single_buffer_in_empty_allocator() {
    let mut a = allocator(1, MIB, 4);
    let x = place(&mut a, &desc(256, 16, AllocationType::Buffer)).unwrap();
    assert_eq!(x.offset(), 0);
    assert_eq!(x.size(), 256);
    assert_eq!(x.memory(), 100);
    assert_eq!(x.memory_type_index, 0);
    assert_eq!(a.allocated(), 256);
    assert_eq!(a.reserved_blocks(), 1);
    assert_eq!(AllocatorInfo::size(&a), MIB);
    assert_eq!(chunk_states(&a, 0), vec![(0, 256, false), (256, MIB - 256, true)]);
}

#[test]
fn granularity_conflict_forces_push() {
    let mut a = allocator(1024, MIB, 4);
    let x = place(&mut a, &desc(4, 1, AllocationType::LinearImage)).unwrap();
    let y = place(&mut a, &desc(4, 1, AllocationType::OptimalImage)).unwrap();
    assert_eq!(x.offset, 0);
    assert_eq!(y.offset, 1024);
    assert_eq!(
        chunk_states(&a, 0),
        vec![(0, 4, false), (4, 1020, true), (1024, 4, false), (1028, MIB - 1028, true)]
    );
}

#[test]
fn same_linearity_is_packed() {
    let mut a = allocator(1024, MIB, 4);
    place(&mut a, &desc(4, 1, AllocationType::Buffer)).unwrap();
    let y = place(&mut a, &desc(4, 1, AllocationType::LinearImage)).unwrap();
    assert_eq!(y.offset, 4);
}

#[test]
fn best_fit_choice() {
    let mut a = allocator(1, MIB, 4);
    let x = place(&mut a, &desc(256, 1, AllocationType::Buffer)).unwrap();
    let y = place(&mut a, &desc(256, 1, AllocationType::Buffer)).unwrap();
    let z = place(&mut a, &desc(256, 1, AllocationType::Buffer)).unwrap();
    assert_eq!((x.offset, y.offset, z.offset), (0, 256, 512));
    assert!(a.free(&y));
    let w = place(&mut a, &desc(200, 1, AllocationType::Buffer)).unwrap();
    assert_eq!(w.offset, 256);
    assert_eq!(a.allocated(), 712);
}

#[test]
fn coalesce_on_free() {
    let mut a = allocator(1, MIB, 4);
    let x = place(&mut a, &desc(256, 1, AllocationType::Buffer)).unwrap();
    let y = place(&mut a, &desc(256, 1, AllocationType::Buffer)).unwrap();
    let z = place(&mut a, &desc(256, 1, AllocationType::Buffer)).unwrap();
    assert!(a.free(&y));
    let w = place(&mut a, &desc(200, 1, AllocationType::Buffer)).unwrap();
    assert!(a.free(&x));
    assert!(a.free(&z));
    assert!(a.free(&w));
    assert_eq!(a.allocated(), 0);
    assert_eq!(chunk_states(&a, 0), vec![(0, MIB, true)]);
}

#[test]
fn block_growth_and_limit() {
    let mut a = allocator(1, 4096, 2);
    place(&mut a, &desc(3000, 1, AllocationType::Buffer)).unwrap();
    assert_eq!(a.reserved_blocks(), 1);
    let y = place(&mut a, &desc(3000, 1, AllocationType::Buffer)).unwrap();
    assert_eq!(a.reserved_blocks(), 2);
    assert_eq!(y.block_index, 1);
    assert_eq!(y.memory, 101);
    assert_eq!(
        place(&mut a, &desc(3000, 1, AllocationType::Buffer)),
        Err(AllocatorError::OutOfMemory)
    );
    assert_eq!(a.reserved_blocks(), 2);
    assert_eq!(AllocatorInfo::size(&a), 8192);
}

#[test]
fn large_request_gets_larger_block() {
    let mut a = allocator(256, 4096, 2);
    match a.allocate(&desc(5000, 1, AllocationType::Buffer)).unwrap() {
        Placement::NeedsBlock(r) => {
            assert_eq!(r.size, 5120);
            assert_eq!(r.memory_type_index, 0);
            assert!(!r.mappable);
        }
        Placement::Placed(_) => panic!("no block exists yet"),
    }
}

#[test]
fn host_visible_location_asks_for_mapped_block() {
    let mut a = allocator(1, 4096, 2);
    let d = GeneralAllocationDescriptor { location: MemoryLocation::CpuToGpu, ..desc(16, 4, AllocationType::Buffer) };
    match a.allocate(&d).unwrap() {
        Placement::NeedsBlock(r) => {
            assert_eq!(r.memory_type_index, 1);
            assert!(r.mappable);
        }
        Placement::Placed(_) => panic!("no block exists yet"),
    }
}

#[test]
fn alignment_is_respected() {
    let mut a = allocator(1, MIB, 4);
    place(&mut a, &desc(10, 1, AllocationType::Buffer)).unwrap();
    let y = place(&mut a, &desc(10, 64, AllocationType::Buffer)).unwrap();
    assert_eq!(y.offset, 64);
    assert_eq!(chunk_states(&a, 0)[1], (10, 54, true));
}

#[test]
fn invalid_requests_are_rejected() {
    let mut a = allocator(1, MIB, 4);
    assert_eq!(a.allocate(&desc(0, 1, AllocationType::Buffer)), Err(AllocatorError::InvalidSize));
    assert_eq!(a.allocate(&desc(8, 0, AllocationType::Buffer)), Err(AllocatorError::InvalidAlignment));
    assert_eq!(a.allocate(&desc(8, 12, AllocationType::Buffer)), Err(AllocatorError::InvalidAlignment));
    let d = GeneralAllocationDescriptor { memory_type_bits: 0, ..desc(8, 1, AllocationType::Buffer) };
    assert_eq!(a.allocate(&d), Err(AllocatorError::NoCompatibleMemoryTypeFound));
    assert_eq!(a.reserved_blocks(), 0);
}

#[test]
fn free_of_unknown_allocation_changes_nothing() {
    let mut a = allocator(1, MIB, 4);
    let x = place(&mut a, &desc(64, 1, AllocationType::Buffer)).unwrap();
    let forged = GeneralAllocation { offset: 8, ..x };
    assert!(!a.free(&forged));
    let elsewhere = GeneralAllocation { block_index: 3, ..x };
    assert!(!a.free(&elsewhere));
    assert_eq!(a.allocated(), 64);
    assert!(a.free(&x));
    assert!(!a.free(&x));
    assert_eq!(a.allocated(), 0);
}

#[test]
fn free_chunk_index_lists_free_chunks() {
    let mut a = allocator(1, MIB, 4);
    let x = place(&mut a, &desc(100, 1, AllocationType::Buffer)).unwrap();
    place(&mut a, &desc(100, 1, AllocationType::Buffer)).unwrap();
    assert!(a.free(&x));
    assert_eq!(a.blocks[0].free_chunk_offsets(), vec![0, 200]);
}

#[test]
fn conservation_over_allocations_and_frees() {
    let mut a = allocator(1, 4096, 4);
    let mut live = Vec::new();
    for size in [100u64, 300, 50, 1000, 7] {
        let before = a.allocated();
        live.push(place(&mut a, &desc(size, 8, AllocationType::Buffer)).unwrap());
        assert_eq!(a.allocated(), before + size);
    }
    let sum: u64 = a.blocks.iter().flat_map(|b| b.chunks.iter()).filter(|c| !c.is_free).map(|c| c.size).sum();
    assert_eq!(a.allocated(), sum);
    for x in [live[3], live[0], live[4], live[1], live[2]] {
        let before = a.allocated();
        assert!(a.free(&x));
        assert_eq!(a.allocated(), before - x.size);
    }
    assert_eq!(a.allocated(), 0);
    for b in 0..a.reserved_blocks() {
        assert_eq!(a.blocks[b].chunks.len(), 1);
        assert!(a.blocks[b].chunks[0].is_free);
    }
}
