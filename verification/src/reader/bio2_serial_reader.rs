//! The firmwares a board can run, as far as the serial link is concerned.

use vstd::prelude::*;

verus! {

/// The firmware on the board at the other end of a serial link.
#[derive(Debug, Clone, Copy, PartialEq, Eq, Structural)]
pub enum Bio2SerialFirmware {
    Bi2a,
    Bi2x,
}

impl Bio2SerialFirmware {
    /// The baud rate of the link: 115200 to a BI2A board, 9600 to a BI2X
    /// board; both 8N1 without flow control.
    pub fn baud_rate(&self) -> (rate: u32)
        ensures
            rate == (if *self == Bio2SerialFirmware::Bi2a { 115200u32 } else { 9600u32 }),
    {
        if *self == Bio2SerialFirmware::Bi2a {
            115200
        } else {
            9600
        }
    }
}

} // verus!
