//! Exit codes reported to the emulator's debug exit device.  Writing the
//! code to the device's I/O port is machine I/O and stays outside this
//! library.

use vstd::prelude::*;

verus! {

#[derive(Debug, Clone, Copy, PartialEq, Eq, Structural)]
pub enum QemuExitCode {
    Success,
    Failed,
}

impl QemuExitCode {
    pub open spec fn spec_code(&self) -> u8 {
        match self {
            QemuExitCode::Success => 1,
            QemuExitCode::Failed => 2,
        }
    }

    /// The byte written to the exit device for this outcome.
    pub fn code(&self) -> (r: u8)
        ensures
            r == self.spec_code(),
    {
        match self {
            QemuExitCode::Success => 1,
            QemuExitCode::Failed => 2,
        }
    }
}

} // verus!
