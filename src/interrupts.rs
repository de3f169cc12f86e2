use vstd::prelude::*;

verus! {

/// The first interrupt vector of the primary interrupt controller.
pub const PIC_1_OFFSET: u8 = 32;

/// The first interrupt vector of the secondary interrupt controller.
pub const PIC_2_OFFSET: u8 = PIC_1_OFFSET + 8;

/// The hardware interrupts the kernel handles, numbered from `PIC_1_OFFSET` on.
#[derive(Debug, Clone, Copy, PartialEq, Eq, Structural)]
pub enum InterruptIndex {
    Timer,
    Keyboard,
}

impl InterruptIndex {
    /// The interrupt vector of this line.
    pub open spec fn vector(self) -> nat {
        match self {
            InterruptIndex::Timer => PIC_1_OFFSET as nat,
            InterruptIndex::Keyboard => PIC_1_OFFSET as nat + 1,
        }
    }

    /// The interrupt vector, as the controller reports it.
    pub fn as_u8(self) -> (r: u8)
        ensures
            r == self.vector(),
    {
        match self {
            InterruptIndex::Timer => PIC_1_OFFSET,
            InterruptIndex::Keyboard => PIC_1_OFFSET + 1,
        }
    }

    /// The interrupt vector, as an index into the descriptor table.
    pub fn as_usize(self) -> (r: usize)
        ensures
            r == self.vector(),
    {
        self.as_u8() as usize
    }
}

} // verus!
