//! A read-only NTFS driver.
//!
//! A volume is an array of records, the MFT, which is itself a file. A record
//! holds attributes; an attribute's value stands in the record or in runs of
//! clusters. Nothing on a volume is taken on trust: every read is checked against
//! the bounds of what it reads from.

pub mod attr;
pub mod boot;
pub mod detail;
pub mod index;
pub mod inode;
pub mod io;
pub mod format_laws;
pub mod laws;
pub mod mount;
pub mod record;
pub mod runs;
pub mod selftest;
pub mod volume;
