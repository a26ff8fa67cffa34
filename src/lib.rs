use vstd::prelude::*;

pub mod addr;
pub mod allocator;
pub mod frame;
pub mod interrupts;
pub mod paging;
pub mod task;
pub mod vga_buffer;

verus! {

/// The codes with which the kernel asks the emulator to exit.
#[derive(Clone, Copy, Debug, PartialEq, Eq, Structural)]
pub enum QemuExitCode {
    Success,
    Failed,
}

impl QemuExitCode {
    /// The value written to the emulator's exit port.
    pub fn code(self) -> (r: u32)
        ensures
            self == QemuExitCode::Success ==> r == 0x10,
            self == QemuExitCode::Failed ==> r == 0x11,
    {
        match self {
            QemuExitCode::Success => 0x10,
            QemuExitCode::Failed => 0x11,
        }
    }
}

} // verus!
