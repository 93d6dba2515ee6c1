//! The serial port's description: which I/O port base a writer talks to.
//! The port reads and writes themselves are machine I/O and stay outside
//! this library.

use vstd::prelude::*;

verus! {

/// The I/O port base of COM1.
pub const COM1_BASE: u16 = 0x3F8;

/// A serial port, named by the base of its I/O port block.
pub struct SerialPort {
    base: u16,
}

impl SerialPort {
    pub closed spec fn spec_base(&self) -> u16 {
        self.base
    }

    pub fn new(base: u16) -> (r: Self)
        ensures
            r.spec_base() == base,
    {
        SerialPort { base }
    }

    pub fn new_for_com1() -> (r: Self)
        ensures
            r.spec_base() == COM1_BASE,
    {
        Self::new(COM1_BASE)
    }

    pub fn base(&self) -> (r: u16)
        ensures
            r == self.spec_base(),
    {
        self.base
    }
}

impl Default for SerialPort {
    fn default() -> (r: Self)
        ensures
            r.spec_base() == COM1_BASE,
    {
        Self::new_for_com1()
    }
}

} // verus!
