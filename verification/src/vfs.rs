//! The types that file systems share with the layer above them.

use vstd::prelude::*;

verus! {

/// Why a file system operation failed.
#[derive(Debug, Clone, Copy, PartialEq, Eq, Structural)]
pub enum VfsError {
    IOError,
    InvalidDevice,
    InvalidInput,
    NoSpace,
    NotFound,
    AlreadyExists,
    IsADirectory,
    NotADirectory,
    NotEmpty,
    FileTooLarge,
    CrossDeviceLink,
    ReadOnly,
}

#[derive(Debug, Clone, Copy, PartialEq, Eq, Structural)]
pub enum FileType {
    Regular,
    Directory,
    Symlink,
    CharDevice,
    BlockDevice,
    Fifo,
    Socket,
}

#[derive(Debug, Clone, Copy, PartialEq, Eq, Structural)]
pub struct Stat {
    pub ino: u64,
    pub size: u64,
    pub file_type: FileType,
    pub mtime: u64,
    pub mode: u32,
}

/// One name in a directory listing.
#[derive(Debug)]
pub struct DirEntry {
    pub ino: u64,
    pub name: String,
    pub file_type: FileType,
}

#[derive(Debug, Clone, Copy, PartialEq, Eq, Structural)]
pub struct StatFs {
    pub block_size: u32,
    pub total_blocks: u64,
    pub free_blocks: u64,
}

/// The name of an error.
pub open spec fn name_of(e: VfsError) -> Seq<char> {
    match e {
        VfsError::IOError => "IOError"@,
        VfsError::InvalidDevice => "InvalidDevice"@,
        VfsError::InvalidInput => "InvalidInput"@,
        VfsError::NoSpace => "NoSpace"@,
        VfsError::NotFound => "NotFound"@,
        VfsError::AlreadyExists => "AlreadyExists"@,
        VfsError::IsADirectory => "IsADirectory"@,
        VfsError::NotADirectory => "NotADirectory"@,
        VfsError::NotEmpty => "NotEmpty"@,
        VfsError::FileTooLarge => "FileTooLarge"@,
        VfsError::CrossDeviceLink => "CrossDeviceLink"@,
        VfsError::ReadOnly => "ReadOnly"@,
    }
}

/// The name of an error.
pub fn discriminant_name(e: VfsError) -> (r: &'static str)
    ensures
        r@ == name_of(e),
{
    match e {
        VfsError::IOError => "IOError",
        VfsError::InvalidDevice => "InvalidDevice",
        VfsError::InvalidInput => "InvalidInput",
        VfsError::NoSpace => "NoSpace",
        VfsError::NotFound => "NotFound",
        VfsError::AlreadyExists => "AlreadyExists",
        VfsError::IsADirectory => "IsADirectory",
        VfsError::NotADirectory => "NotADirectory",
        VfsError::NotEmpty => "NotEmpty",
        VfsError::FileTooLarge => "FileTooLarge",
        VfsError::CrossDeviceLink => "CrossDeviceLink",
        VfsError::ReadOnly => "ReadOnly",
    }
}

} // verus!
