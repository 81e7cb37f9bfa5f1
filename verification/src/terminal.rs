//! Plain data about the terminal.  Entering raw mode, switching screens and
//! all other terminal I/O happen outside this library; the buffer engine
//! only needs the usable size and which states were entered.

use vstd::prelude::*;

verus! {

/// The terminal's usable text area, in character cells.
#[derive(Clone, Copy, PartialEq, Eq, Structural, Debug)]
pub struct Size {
    pub width: u16,
    pub height: u16,
}

/// What the editor knows of the terminal: its size, and whether raw mode and
/// the alternate screen were successfully entered.
pub struct Terminal {
    pub size: Size,
    pub raw_mode: bool,
    pub alt_screen: bool,
}

impl Terminal {
    /// The terminal's size.
    pub fn size(&self) -> (s: &Size)
        ensures
            *s == self.size,
    {
        &self.size
    }
}

} // verus!
