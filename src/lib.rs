use vstd::prelude::*;

pub mod block_device;
pub mod command;
pub mod error;
pub mod file_ops;
pub mod file_table;
pub mod interrupts;
pub mod superblock;

verus! {

/// Bytes in a block of the storage medium.
pub const BLOCK_SIZE: usize = 512;

} // verus!
