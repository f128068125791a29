use vk_alloc::{AllocationType, AllocatorError, AllocatorInfo, LinearAllocator};

#[test]
fn linear_reset_repeats_offsets() {
    let mut a = LinearAllocator::new(7, 4096, 1);
    let mut first = Vec::new();
    loop {
        match a.allocate(1000, 16, AllocationType::Buffer) {
            Ok(x) => first.push(x.offset),
            Err(e) => {
                assert_eq!(e, AllocatorError::OutOfMemory);
                break;
            }
        }
    }
    assert_eq!(first, vec![0, 1008, 2016, 3024]);
    a.free_all();
    assert_eq!(a.allocated(), 0);
    let mut second = Vec::new();
    while let Ok(x) = a.allocate(1000, 16, AllocationType::Buffer) {
        second.push(x.offset);
    }
    assert_eq!(first, second);
}

#[test]
fn free_all_twice_is_free_all_once() {
    let mut a = LinearAllocator::new(7, 4096, 64);
    a.allocate(10, 1, AllocationType::LinearImage).unwrap();
    a.free_all();
    let once = (a.offset, a.previous, a.block_size, a.memory);
    a.free_all();
    assert_eq!((a.offset, a.previous, a.block_size, a.memory), once);
}

#[test]
fn linear_granularity_push() {
    let mut a = LinearAllocator::new(7, 4096, 1024);
    let x = a.allocate(4, 1, AllocationType::LinearImage).unwrap();
    let y = a.allocate(4, 1, AllocationType::OptimalImage).unwrap();
    let z = a.allocate(4, 1, AllocationType::OptimalImage).unwrap();
    assert_eq!((x.offset, y.offset, z.offset), (0, 1024, 1028));
    assert_eq!(y.memory, 7);
    assert_eq!(a.allocated(), 1032);
}

#[test]
fn linear_errors() {
    let mut a = LinearAllocator::new(7, 4096, 1);
    assert_eq!(a.allocate(0, 1, AllocationType::Buffer), Err(AllocatorError::InvalidSize));
    assert_eq!(a.allocate(4, 3, AllocationType::Buffer), Err(AllocatorError::InvalidAlignment));
    assert_eq!(a.allocate(4097, 1, AllocationType::Buffer), Err(AllocatorError::OutOfMemory));
    assert_eq!(a.allocate(4, 1 << 63, AllocationType::Buffer).map(|x| x.offset), Ok(0));
    assert_eq!(a.allocate(4, 1 << 63, AllocationType::Buffer), Err(AllocatorError::OutOfMemory));
    assert_eq!(a.reserved_blocks(), 1);
    assert_eq!(AllocatorInfo::size(&a), 4096);
}

#[test]
fn linear_exact_fit() {
    let mut a = LinearAllocator::new(7, 4096, 1);
    assert_eq!(a.allocate(4096, 4096, AllocationType::Buffer).map(|x| x.offset), Ok(0));
    assert_eq!(a.allocate(1, 1, AllocationType::Buffer), Err(AllocatorError::OutOfMemory));
}
