//! The byte link to a BIO2 board.

use vstd::prelude::*;

verus! {

/// A link to a board: bytes go out in frames and come back one at a time.
pub trait Bio2Reader {
    /// Whether `write_bytes` is defined for `data` on this link; a link
    /// takes any bytes unless it says otherwise.
    open spec fn accepts(&self, data: Seq<u8>) -> bool {
        true
    }

    /// Whether `write_bytes` is defined for `data` on this link.
    fn accepts_bytes(&self, data: &[u8]) -> (b: bool)
        ensures
            b == self.accepts(data@),
    ;

    /// The next byte from the board, `None` when nothing came.
    fn read_byte(&mut self) -> Result<Option<u8>, Bio2ReaderError>;

    /// Sends bytes to the board.
    fn write_bytes(&mut self, data: &[u8]) -> Result<(), Bio2ReaderError>
        requires
            old(self).accepts(data@),
    ;

    /// Opens the link again, after the board rebooted.
    fn reconnect(&mut self) -> Result<(), Bio2ReaderError>;

    /// Drops what came from the board and was not read.
    fn clear(&mut self);
}

/// A failure of the link, with its message.
#[derive(Debug, PartialEq, Eq)]
pub enum Bio2ReaderError {
    Raw(String),
}

} // verus!
