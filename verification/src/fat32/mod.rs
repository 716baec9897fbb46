//! The FAT32 file system.

pub mod allocator;
pub mod bitmap;
pub mod bpb;
pub mod cache;
pub mod chain;
pub mod chain_cache;
pub mod cluster;
pub mod create;
pub mod dir;
pub mod dir_write;
pub mod directory_laws;
pub mod dirent;
pub mod dirops;
pub mod extend;
pub mod file_write;
pub mod format_laws;
pub mod grow;
pub mod handles;
pub mod orphans;
pub mod inode;
pub mod io;
pub mod laws;
pub mod listing;
pub mod mount;
pub mod names;
pub mod record;
pub mod remove;
pub mod rename;
pub mod steps;
pub mod store;
pub mod superblock;
pub mod transfer;
pub mod truncate;
pub mod upkeep;

