//! Reader for the two on-disk stores of Outlook for Mac: New Outlook's
//! `HxStore.hxd` cache, and the classic `Outlook.sqlite` with its `.olk15*`
//! files.

pub mod classify;
pub mod discover;
pub mod hxlz4;
pub mod hxrecord;
pub mod hxstore;
pub mod olk15;
pub mod profile;
pub mod schema;
