use vstd::prelude::*;
use crate::types::{AllocatorError, MemoryLocation};

verus! {

/// Memory property bit: memory local to the device.
pub const DEVICE_LOCAL: u32 = 0x1;

/// Memory property bit: memory the host can map.
pub const HOST_VISIBLE: u32 = 0x2;

/// Memory property bit: host writes need no explicit flush.
pub const HOST_COHERENT: u32 = 0x4;

/// Memory property bit: host reads are cached.
pub const HOST_CACHED: u32 = 0x8;

/// The largest number of memory types a device reports.
pub const MAX_MEMORY_TYPES: usize = 32;

/// Whether bit `index` of `memory_type_bits` is set.
pub open spec fn type_permitted(index: int, memory_type_bits: u32) -> bool {
    0 <= index < 32 && memory_type_bits & (1u32 << (index as u32)) != 0
}

/// Whether `flags` holds every bit of `wanted`.
pub open spec fn flags_contain(flags: u32, wanted: u32) -> bool {
    flags & wanted == wanted
}

/// Whether memory type `index` is permitted by the mask and offers every wanted property.
pub open spec fn type_suitable(types: Seq<u32>, memory_type_bits: u32, wanted: u32,
    index: int) -> bool {
    0 <= index < types.len() && type_permitted(index, memory_type_bits) && flags_contain(
        types[index],
        wanted,
    )
}

/// `index` is the first suitable memory type.
pub open spec fn first_suitable(types: Seq<u32>, memory_type_bits: u32, wanted: u32,
    index: int) -> bool {
    type_suitable(types, memory_type_bits, wanted, index) && forall|j: int|
        0 <= j < index ==> !type_suitable(types, memory_type_bits, wanted, j)
}

/// No memory type is suitable.
pub open spec fn none_suitable(types: Seq<u32>, memory_type_bits: u32, wanted: u32) -> bool {
    forall|j: int| 0 <= j < types.len() ==> !type_suitable(types, memory_type_bits, wanted, j)
}

/// The properties a location asks for first.
pub open spec fn preferred_flags(location: MemoryLocation) -> u32 {
    match location {
        MemoryLocation::GpuOnly => DEVICE_LOCAL,
        MemoryLocation::CpuToGpu => HOST_VISIBLE | HOST_COHERENT | DEVICE_LOCAL,
        MemoryLocation::GpuToCpu => HOST_VISIBLE | HOST_COHERENT | HOST_CACHED,
    }
}

/// The properties a location settles for when no type offers the preferred ones.
pub open spec fn relaxed_flags(location: MemoryLocation) -> u32 {
    match location {
        MemoryLocation::GpuOnly => DEVICE_LOCAL,
        MemoryLocation::CpuToGpu => HOST_VISIBLE | HOST_COHERENT,
        MemoryLocation::GpuToCpu => HOST_VISIBLE | HOST_COHERENT,
    }
}

/// The memory type chosen for `location`: the first suitable type for the preferred
/// properties, else the first suitable one for the relaxed properties.
pub open spec fn chosen_type(types: Seq<u32>, location: MemoryLocation, memory_type_bits: u32,
    index: int) -> bool {
    first_suitable(types, memory_type_bits, preferred_flags(location), index) || (none_suitable(
        types,
        memory_type_bits,
        preferred_flags(location),
    ) && first_suitable(types, memory_type_bits, relaxed_flags(location), index))
}

/// Whether memory type `memory_type_index` is allowed by `memory_type_bits`.
pub fn memory_type_is_compatible(memory_type_index: usize, memory_type_bits: u32) -> (r: bool)
    requires
        memory_type_index < MAX_MEMORY_TYPES,
    ensures
        r == type_permitted(memory_type_index as int, memory_type_bits),
{
    memory_type_bits & (1u32 << (memory_type_index as u32)) != 0
}

/// The first memory type, in index order, that the mask permits and that has every
/// property of `memory_property_flags`.
pub fn query_memory_type_index(
    memory_types: &Vec<u32>,
    memory_type_bits: u32,
    memory_property_flags: u32,
) -> (r: Option<u32>)
    requires
        memory_types@.len() <= MAX_MEMORY_TYPES,
    ensures
        match r {
            Some(i) => first_suitable(memory_types@, memory_type_bits, memory_property_flags,
                i as int),
            None => none_suitable(memory_types@, memory_type_bits, memory_property_flags),
        },
{
    let mut index: usize = 0;
    while index < memory_types.len()
        invariant
            index <= memory_types@.len() <= MAX_MEMORY_TYPES,
            forall|j: int|
                0 <= j < index ==> !type_suitable(memory_types@, memory_type_bits,
                    memory_property_flags, j),
        decreases memory_types@.len() - index,
    {
        if memory_type_is_compatible(index, memory_type_bits)
            && memory_types[index] & memory_property_flags == memory_property_flags {
            return Some(index as u32);
        }
        index = index + 1;
    }
    None
}

/// Picks the memory type for `location` among those `memory_type_bits` permits: first
/// with the preferred properties, then with the relaxed ones.
pub fn find_memory_type_index(
    memory_types: &Vec<u32>,
    location: MemoryLocation,
    memory_type_bits: u32,
) -> (r: Result<usize, AllocatorError>)
    requires
        memory_types@.len() <= MAX_MEMORY_TYPES,
    ensures
        match r {
            Ok(i) => chosen_type(memory_types@, location, memory_type_bits, i as int),
            Err(e) => e == AllocatorError::NoCompatibleMemoryTypeFound && none_suitable(
                memory_types@,
                memory_type_bits,
                preferred_flags(location),
            ) && none_suitable(memory_types@, memory_type_bits, relaxed_flags(location)),
        },
{
    let preferred = match location {
        MemoryLocation::GpuOnly => DEVICE_LOCAL,
        MemoryLocation::CpuToGpu => HOST_VISIBLE | HOST_COHERENT | DEVICE_LOCAL,
        MemoryLocation::GpuToCpu => HOST_VISIBLE | HOST_COHERENT | HOST_CACHED,
    };
    let mut found = query_memory_type_index(memory_types, memory_type_bits, preferred);
    if found.is_none() {
        let relaxed = match location {
            MemoryLocation::GpuOnly => DEVICE_LOCAL,
            MemoryLocation::CpuToGpu => HOST_VISIBLE | HOST_COHERENT,
            MemoryLocation::GpuToCpu => HOST_VISIBLE | HOST_COHERENT,
        };
        found = query_memory_type_index(memory_types, memory_type_bits, relaxed);
    }
    match found {
        Some(x) => Ok(x as usize),
        None => Err(AllocatorError::NoCompatibleMemoryTypeFound),
    }
}

} // verus!
