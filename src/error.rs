use vstd::prelude::*;

verus! {

/// What a file system operation can fail with. Every failure is a value
/// handed back to the caller; none of them stops the kernel.
#[derive(Debug, Clone, Copy, PartialEq, Eq, Structural)]
pub enum FsError {
    /// The name is longer than a stored name can hold.
    NameTooLong,
    /// A live file already has this name.
    NameInUse,
    /// No live file has this name.
    NotFound,
    /// The free list cannot supply the blocks asked for.
    NoSpace,
    /// The device is held by another caller.
    DeviceBusy,
    /// A block outside the device was addressed, or a length does not fit a block.
    DeviceError,
}

} // verus!
