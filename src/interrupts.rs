use vstd::prelude::*;

verus! {

/// Interrupt vector of the first line of the primary interrupt controller.
pub const PRIMARY_PIC_OFFSET: u8 = 32;

/// The hardware interrupts that the kernel handles, in the order of their
/// lines on the primary interrupt controller.
#[derive(Clone, Copy, Debug, PartialEq, Eq, Structural)]
pub enum InterruptIndex {
    Timer,
    Keyboard,
}

/// The interrupt vector of `i`: the controller's offset plus its line.
pub open spec fn interrupt_vector(i: InterruptIndex) -> u8 {
    match i {
        InterruptIndex::Timer => PRIMARY_PIC_OFFSET,
        InterruptIndex::Keyboard => (PRIMARY_PIC_OFFSET + 1) as u8,
    }
}

impl InterruptIndex {
    /// The interrupt vector, as a byte.
    pub fn as_u8(self) -> (r: u8)
        ensures
            r == interrupt_vector(self),
    {
        match self {
            InterruptIndex::Timer => PRIMARY_PIC_OFFSET,
            InterruptIndex::Keyboard => PRIMARY_PIC_OFFSET + 1,
        }
    }

    /// The interrupt vector, as an index into the interrupt descriptor table.
    pub fn as_usize(self) -> (r: usize)
        ensures
            r == interrupt_vector(self),
    {
        self.as_u8() as usize
    }
}

} // verus!
