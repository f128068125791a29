use vstd::prelude::*;

verus! {

/// Type of the allocation.
#[derive(Debug, Clone, Copy, PartialEq, Eq, Structural)]
pub enum AllocationType {
    /// An allocation for a buffer.
    Buffer,
    /// An allocation for a regular (optimally tiled) image.
    OptimalImage,
    /// An allocation for a linear image.
    LinearImage,
}

impl AllocationType {
    /// Buffers and linear images are linear resources; optimal images are not.
    pub open spec fn spec_is_linear(self) -> bool {
        match self {
            AllocationType::Buffer => true,
            AllocationType::OptimalImage => false,
            AllocationType::LinearImage => true,
        }
    }

    /// Returns true if this is a "linear" type (buffers and linear images).
    pub fn is_linear(&self) -> (r: bool)
        ensures
            r == self.spec_is_linear(),
    {
        match self {
            AllocationType::Buffer => true,
            AllocationType::OptimalImage => false,
            AllocationType::LinearImage => true,
        }
    }
}

/// The location of the memory.
#[derive(Debug, Clone, Copy, PartialEq, Eq, Structural)]
pub enum MemoryLocation {
    /// Mainly used for uploading data to the GPU (DEVICE_LOCAL | HOST_VISIBLE | HOST_COHERENT).
    CpuToGpu,
    /// Used as fast access memory for the GPU (DEVICE_LOCAL).
    GpuOnly,
    /// Mainly used for downloading data from the GPU (HOST_VISIBLE | HOST_COHERENT | HOST_CACHED).
    GpuToCpu,
}

/// The ways an allocator request can fail.
#[derive(Debug, Clone, Copy, PartialEq, Eq, Structural)]
pub enum AllocatorError {
    /// The device refused a block, or the pool is full and no block can hold the request.
    OutOfMemory,
    /// The device refused to map a host-visible block.
    FailedToMap,
    /// No memory type satisfies the location and the permitted type mask.
    NoCompatibleMemoryTypeFound,
    /// The requested alignment is zero or not a power of two.
    InvalidAlignment,
    /// The requested size is zero.
    InvalidSize,
}

impl AllocatorError {
    /// A short human-readable description of the error.
    pub fn message(&self) -> (r: String) {
        match self {
            AllocatorError::OutOfMemory => "out of memory".to_string(),
            AllocatorError::FailedToMap => "failed to map memory".to_string(),
            AllocatorError::NoCompatibleMemoryTypeFound => "no compatible memory type found".to_string(),
            AllocatorError::InvalidAlignment => "invalid alignment".to_string(),
            AllocatorError::InvalidSize => "invalid size".to_string(),
        }
    }
}

} // verus!
