//! A file system in memory.
//!
//! Nodes stand in a table. A node lives as long as anything refers to it: a name in
//! a directory, or a handle that is open on it. The bytes of all nodes together
//! keep to a budget.

pub mod inode;
pub mod laws;
pub mod volume;
