pub mod blockdriver;
pub mod bytes;
pub mod collections;
pub mod drivers;
pub mod dtb;
pub mod dtb_laws;
pub mod fat32;
pub mod fstypes;
pub mod layout;
pub mod ntfs;
pub mod partition;
pub mod replay;
pub mod text;
pub mod tmpfs;
pub mod vfs;
