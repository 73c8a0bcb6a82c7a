//! Read-only access to Outlook mail stores: the PFF files behind `.pst` and
//! `.ost`, and the two on-disk layouts of Outlook for Mac.

pub mod b64;
pub mod bytes;
pub mod calendar;
pub mod cli;
pub mod discover;
pub mod errors;
pub mod laws;
pub mod mac_outlook;
pub mod mailbox;
pub mod maps;
pub mod order;
pub mod ost;
pub mod ost_adapter;
pub mod search;
pub mod server;
pub mod sql;
pub mod statement;
pub mod text;
pub mod views;
pub mod vtab;
