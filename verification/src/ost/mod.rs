//! Reader for Outlook Personal Folder File (PFF) stores.
//!
//! Two 64-bit Unicode variants are handled: `wVer` 23, the PST/OST layout with
//! 512-byte pages, and `wVer` 36, the OST with 4 KB pages that Outlook 2013 and
//! later write.
//!
//! The layers are [`ndb`] (pages, blocks and the two BTrees), [`ltp`] (heaps,
//! property contexts and tables), [`props`] (values) and [`store`] (folders and
//! messages). All of them read a borrowed view of the file and never write.

use vstd::prelude::*;
use crate::text;

pub use crate::errors::ErrorV;

pub mod ltp;
pub mod ndb;
pub mod props;
pub mod store;

verus! {

#[derive(Debug)]
pub enum Error {
    /// The operating system's description of what failed.
    Io(String),
    /// The file is a PFF but one of its structures is malformed.
    Format(String),
    /// A valid PFF variant this reader does not implement.
    Unsupported(String),
    NotFound(String),
}

impl View for Error {
    type V = ErrorV;

    open spec fn view(&self) -> ErrorV {
        match *self {
            Error::Io(m) => ErrorV::Io(m@),
            Error::Format(m) => ErrorV::Format(m@),
            Error::Unsupported(m) => ErrorV::Unsupported(m@),
            Error::NotFound(m) => ErrorV::NotFound(m@),
        }
    }
}

impl Error {
    /// The error as it is shown to the user.
    pub fn display(&self) -> (r: String)
        ensures
            r@ == self@.shown(),
    {
        match self {
            Error::Io(m) => text::cat2("io: ", m.as_str()),
            Error::Format(m) => text::cat2("malformed: ", m.as_str()),
            Error::Unsupported(m) => text::cat2("unsupported: ", m.as_str()),
            Error::NotFound(m) => text::cat2("not found: ", m.as_str()),
        }
    }
}

} // verus!
