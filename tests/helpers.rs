use vk_alloc::geometry::{align_down, align_up, checked_align_up, has_granularity_conflict, is_on_same_page};
use vk_alloc::memory_type::{
    find_memory_type_index, memory_type_is_compatible, query_memory_type_index, DEVICE_LOCAL,
    HOST_CACHED, HOST_COHERENT, HOST_VISIBLE,
};
use vk_alloc::{AllocationType, AllocatorError, MemoryLocation};

#[test]
fn align_values() {
    assert_eq!(align_up(0, 16), 0);
    assert_eq!(align_up(1, 16), 16);
    assert_eq!(align_up(16, 16), 16);
    assert_eq!(align_up(17, 16), 32);
    assert_eq!(align_down(17, 16), 16);
    assert_eq!(align_down(15, 16), 0);
    assert_eq!(align_down(u64::MAX, 1024), u64::MAX - 1023);
    assert_eq!(checked_align_up(u64::MAX, 2), None);
    assert_eq!(checked_align_up(u64::MAX - 1, 2), Some(u64::MAX - 1));
}

#[test]
fn same_page_values() {
    assert!(is_on_same_page(0, 4, 4, 1024));
    assert!(!is_on_same_page(0, 4, 1024, 1024));
    assert!(is_on_same_page(1000, 24, 1023, 1024));
    assert!(!is_on_same_page(1000, 24, 1024, 1024));
    assert!(!is_on_same_page(0, 0, 0, 1024));
    assert!(!is_on_same_page(8, 0, 8, 1024));
}

#[test]
fn conflict_and_linearity() {
    assert!(has_granularity_conflict(true, false));
    assert!(!has_granularity_conflict(true, true));
    assert!(AllocationType::Buffer.is_linear());
    assert!(AllocationType::LinearImage.is_linear());
    assert!(!AllocationType::OptimalImage.is_linear());
}

#[test]
fn memory_type_selection() {
    let types = vec![DEVICE_LOCAL, HOST_VISIBLE | HOST_COHERENT, HOST_VISIBLE | HOST_COHERENT | HOST_CACHED];
    assert!(memory_type_is_compatible(2, 0b100));
    assert!(!memory_type_is_compatible(1, 0b101));
    assert_eq!(query_memory_type_index(&types, 0b111, HOST_VISIBLE), Some(1));
    assert_eq!(query_memory_type_index(&types, 0b101, HOST_VISIBLE), Some(2));
    assert_eq!(query_memory_type_index(&types, 0b001, HOST_VISIBLE), None);
    assert_eq!(find_memory_type_index(&types, MemoryLocation::GpuOnly, 0b111), Ok(0));
    assert_eq!(find_memory_type_index(&types, MemoryLocation::GpuToCpu, 0b111), Ok(2));
    // no type is host visible and device local: the relaxed set picks the first host visible one
    assert_eq!(find_memory_type_index(&types, MemoryLocation::CpuToGpu, 0b111), Ok(1));
    // no cached type permitted: relaxed set
    assert_eq!(find_memory_type_index(&types, MemoryLocation::GpuToCpu, 0b011), Ok(1));
    assert_eq!(
        find_memory_type_index(&types, MemoryLocation::GpuOnly, 0b110),
        Err(AllocatorError::NoCompatibleMemoryTypeFound)
    );
    let unified = vec![DEVICE_LOCAL | HOST_VISIBLE | HOST_COHERENT];
    assert_eq!(find_memory_type_index(&unified, MemoryLocation::CpuToGpu, 1), Ok(0));
}

#[test]
fn error_messages() {
    assert_eq!(AllocatorError::OutOfMemory.message(), "out of memory");
    assert_eq!(AllocatorError::InvalidSize.message(), "invalid size");
}
