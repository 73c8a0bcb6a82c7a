//! What the library promises as a whole.
//!
//! Each law speaks of what goes into an operation and what comes out of it, in words
//! of its own: of the bytes of a file and the text that is read from them, of a
//! message and its report, of a request and its statement.

use vstd::prelude::*;

pub mod adapter;
pub mod args;
pub mod encoding;
pub mod entry;
pub mod file;
pub mod finding;
pub mod folders;
pub mod guard;
pub mod heap;
pub mod hx;
pub mod messages;
pub mod olk;
pub mod ost;
pub mod profile;
pub mod records;
pub mod report;
pub mod search;
pub mod sweep;
pub mod tables;
pub mod texts;
pub mod times;
pub mod trees;
pub mod values;

verus! {

/// The same text, or none on both sides.
pub open spec fn same_text(a: Option<String>, b: Option<String>) -> bool {
    match (a, b) {
        (Some(s), Some(t)) => s@ == t@,
        (None, None) => true,
        _ => false,
    }
}

/// The first `n` characters of `s`, or all of it where it has no more.
pub open spec fn first_chars(s: Seq<char>, n: int) -> Seq<char> {
    if n < s.len() {
        s.take(n)
    } else {
        s
    }
}

} // verus!
