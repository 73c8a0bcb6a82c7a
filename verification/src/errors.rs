//! What the errors of all backends say.

use vstd::prelude::*;

verus! {

/// An error with its text as a sequence of characters.
pub enum ErrorV {
    Io(Seq<char>),
    Format(Seq<char>),
    Unsupported(Seq<char>),
    NotFound(Seq<char>),
}

impl ErrorV {
    /// What is shown to the user for an error.
    pub open spec fn shown(self) -> Seq<char> {
        match self {
            ErrorV::Io(m) => "io: "@ + m,
            ErrorV::Format(m) => "malformed: "@ + m,
            ErrorV::Unsupported(m) => "unsupported: "@ + m,
            ErrorV::NotFound(m) => "not found: "@ + m,
        }
    }
}

} // verus!
