//! The editor's modal states.  Which key does what in each mode is dispatch
//! glue outside this library.

use vstd::prelude::*;

verus! {

/// The editing modes.
#[derive(Clone, Copy, PartialEq, Eq, Structural, Debug)]
pub enum Mode {
    Normal,
    Insert,
    Visual,
    Command,
}

impl Default for Mode {
    /// The editor starts in normal mode.
    fn default() -> (m: Mode)
        ensures
            m == Mode::Normal,
    {
        Mode::Normal
    }
}

impl Mode {
    /// The mode's name, as a status line shows it.
    pub fn label(&self) -> (s: &'static str)
        ensures
            *self == Mode::Normal ==> s@ == "NORMAL"@,
            *self == Mode::Insert ==> s@ == "INSERT"@,
            *self == Mode::Visual ==> s@ == "VISUAL"@,
            *self == Mode::Command ==> s@ == "COMMAND"@,
    {
        match self {
            Mode::Normal => "NORMAL",
            Mode::Insert => "INSERT",
            Mode::Visual => "VISUAL",
            Mode::Command => "COMMAND",
        }
    }
}

} // verus!
