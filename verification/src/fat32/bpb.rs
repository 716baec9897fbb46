//! The BIOS parameter block: the geometry of a FAT32 volume.

use vstd::prelude::*;

use crate::blockdriver::traits;
use crate::blockdriver::traits::BlockDevice;
use crate::bytes;
use crate::bytes::{read_le_u16, read_le_u32};
use crate::fat32::io;
use crate::fat32::io::{read_sectors, SECTOR_SIZE};
use crate::vfs::VfsError;

verus! {

pub const DIR_ENTRY_SIZE: usize = 32;

pub const MAX_SFN_LEN: usize = 11;

#[derive(Debug, Clone, Copy, PartialEq, Eq, Structural)]
pub struct Bpb {
    pub bytes_per_sec: u16,
    pub sec_per_clus: u8,
    pub rsvd_sec_cnt: u16,
    pub num_fats: u8,
    pub fat_sz32: u32,
    pub root_clus: u32,
    pub fsinfo_sec: u16,
    pub byts_per_clus: u32,
    pub first_data_sec: u64,
    pub total_clus: u32,
    /// The low byte of the extended flags: bit 7 set means that only the table
    /// named by the low four bits is kept up to date.
    pub active_fat: u8,
}

/// A number of sectors that a cluster may have.
pub open spec fn is_cluster_factor(n: int) -> bool {
    n == 1 || n == 2 || n == 4 || n == 8 || n == 16 || n == 32 || n == 64 || n == 128
}

/// The number of sectors on the volume: the 16-bit count, or the 32-bit one where
/// the 16-bit one is zero.
pub open spec fn volume_sectors(s: Seq<u8>) -> int {
    if bytes::le16(s, 0x13) != 0 {
        bytes::le16(s, 0x13)
    } else {
        bytes::le32(s, 0x20)
    }
}

/// The number of sectors before the first cluster.
pub open spec fn data_start(s: Seq<u8>) -> int {
    bytes::le16(s, 0x0E) + s[0x10] * bytes::le32(s, 0x24)
}

/// The sector carries the boot signature and describes a FAT32 volume, not a
/// FAT12 or FAT16 one.
pub open spec fn is_fat32_boot(s: Seq<u8>) -> bool {
    &&& s[510] == 0x55 && s[511] == 0xAA
    &&& bytes::le16(s, 0x11) == 0
    &&& bytes::le16(s, 0x16) == 0
    &&& bytes::le32(s, 0x24) != 0
}

/// The geometry is one that this driver can serve on a device of `dev_sectors`
/// sectors.
pub open spec fn is_valid_geometry(s: Seq<u8>, dev_sectors: int) -> bool {
    &&& bytes::le16(s, 0x0B) == 512
    &&& is_cluster_factor(s[0x0D] as int)
    &&& bytes::le16(s, 0x0E) != 0
    &&& s[0x10] != 0
    &&& bytes::le32(s, 0x2C) >= 2
    &&& data_start(s) < volume_sectors(s) <= dev_sectors
}

impl Bpb {
    /// What every parameter block that was read from a volume satisfies.
    pub open spec fn wf(self) -> bool {
        &&& self.bytes_per_sec == 512
        &&& is_cluster_factor(self.sec_per_clus as int)
        &&& self.rsvd_sec_cnt >= 1
        &&& self.num_fats >= 1
        &&& self.fat_sz32 >= 1
        &&& self.root_clus >= 2
        &&& self.byts_per_clus == 512 * self.sec_per_clus
        &&& self.first_data_sec == self.rsvd_sec_cnt + self.num_fats * self.fat_sz32
        &&& self.first_data_sec + self.total_clus * self.sec_per_clus <= u32::MAX
        &&& self.total_clus <= u32::MAX - 2
    }

    /// The fields that the boot sector `s` states or implies.
    pub open spec fn describes(self, s: Seq<u8>) -> bool {
        &&& self.bytes_per_sec == bytes::le16(s, 0x0B)
        &&& self.sec_per_clus == s[0x0D]
        &&& self.rsvd_sec_cnt == bytes::le16(s, 0x0E)
        &&& self.num_fats == s[0x10]
        &&& self.fat_sz32 == bytes::le32(s, 0x24)
        &&& self.root_clus == bytes::le32(s, 0x2C)
        &&& self.fsinfo_sec == bytes::le16(s, 0x30)
        &&& self.byts_per_clus == 512 * s[0x0D]
        &&& self.first_data_sec == data_start(s)
        &&& self.total_clus == (volume_sectors(s) - data_start(s)) / (s[0x0D] as int)
        &&& self.active_fat == s[0x42]
    }

    /// The first sector of a cluster.
    pub open spec fn lba_of(self, cluster: int) -> int {
        self.first_data_sec + (if cluster >= 2 {
            cluster - 2
        } else {
            0
        }) * self.sec_per_clus
    }

    pub open spec fn active_idx(self) -> int {
        if self.active_fat >= 0x80 {
            self.active_fat as int % 0x10
        } else {
            0
        }
    }

    /// The first sector of the table in use.
    pub open spec fn active_lba(self) -> int {
        self.rsvd_sec_cnt + self.active_idx() * self.fat_sz32
    }

    pub fn cluster_to_lba(&self, cluster: u32) -> (r: u64)
        requires
            self.wf(),
        ensures
            r == self.lba_of(cluster as int),
            r <= 0x100_0000_0000,
    {
        let offset: u64 = cluster.saturating_sub(2) as u64;
        assert(offset * self.sec_per_clus <= 0xFFFF_FFFF * 0x80) by (nonlinear_arith)
            requires
                offset <= 0xFFFF_FFFF,
                self.sec_per_clus <= 0x80,
        ;
        self.first_data_sec + offset * (self.sec_per_clus as u64)
    }

    pub fn active_fat_idx(&self) -> (r: u8)
        ensures
            r == self.active_idx(),
            r <= 15,
    {
        if self.active_fat >= 0x80 {
            self.active_fat % 0x10
        } else {
            0
        }
    }

    /// The sector that holds part `sector_idx` of table `fat_num`.
    pub fn fat_sector_lba(&self, fat_num: u8, sector_idx: u32) -> (r: u64)
        ensures
            r == self.rsvd_sec_cnt + fat_num * self.fat_sz32 + sector_idx,
    {
        assert(fat_num * self.fat_sz32 <= 0xFF * 0xFFFF_FFFF) by (nonlinear_arith)
            requires
                fat_num <= 0xFF,
                self.fat_sz32 <= 0xFFFF_FFFF,
        ;
        self.rsvd_sec_cnt as u64 + (fat_num as u64) * self.fat_sz32 as u64 + sector_idx as u64
    }

    /// Where in a table the entry of `cluster` stands: the sector within the
    /// table, and the byte within the sector. The byte offset is taken modulo 2^32.
    pub fn fat_entry_position(&self, cluster: u32) -> (r: (u32, u32))
        ensures
            self.bytes_per_sec == 0 ==> r == (0u32, 0u32),
            self.bytes_per_sec != 0 ==> r.0 == (cluster * 4) % 0x1_0000_0000
                / self.bytes_per_sec as int && r.1 == (cluster * 4) % 0x1_0000_0000
                % self.bytes_per_sec as int,
    {
        let byte_off: u32 = cluster.wrapping_mul(4);
        if self.bytes_per_sec == 0 {
            return (0, 0);
        }
        let sector_idx: u32 = byte_off / self.bytes_per_sec as u32;
        let offset: u32 = byte_off % self.bytes_per_sec as u32;
        (sector_idx, offset)
    }

    pub fn fsinfo_is_valid(&self) -> (r: bool)
        ensures
            r == (self.fsinfo_sec != 0 && self.fsinfo_sec != 0xFFFF),
    {
        self.fsinfo_sec != 0 && self.fsinfo_sec != 0xFFFF
    }
}

/// Reads the parameter block from sector 0.
pub fn parse_bpb<D: BlockDevice>(device: &mut D) -> (r: Result<Bpb, VfsError>)
    requires
        old(device).sector_len() == SECTOR_SIZE,
    ensures
        io::same_device(*final(device), *old(device)),
        final(device).disk() == old(device).disk(),
        ({
            let s = io::disk_range(old(device).disk(), 0, 512);
            match r {
                Ok(b) => is_fat32_boot(s) && is_valid_geometry(s, old(device).sectors() as int)
                    && b.describes(s) && b.wf(),
                Err(VfsError::InvalidDevice) => !is_fat32_boot(s),
                Err(VfsError::InvalidInput) => is_fat32_boot(s) && !is_valid_geometry(
                    s,
                    old(device).sectors() as int,
                ),
                Err(e) => e == VfsError::IOError && traits::faults(*final(device))
                    > traits::faults(*old(device)),
            }
        }),
{
    let sector: Vec<u8> = match read_sectors(device, 0, 1) {
        Ok(v) => v,
        Err(e) => return Err(e),
    };
    if sector[510] != 0x55 || sector[511] != 0xAA {
        return Err(VfsError::InvalidDevice);
    }
    let bytes_per_sec: u16 = read_le_u16(sector.as_slice(), 0x0B);
    let sec_per_clus: u8 = sector[0x0D];
    let rsvd_sec_cnt: u16 = read_le_u16(sector.as_slice(), 0x0E);
    let num_fats: u8 = sector[0x10];
    let root_ent_cnt: u16 = read_le_u16(sector.as_slice(), 0x11);
    let fat_sz16: u16 = read_le_u16(sector.as_slice(), 0x16);
    let fat_sz32: u32 = read_le_u32(sector.as_slice(), 0x24);
    let root_clus: u32 = read_le_u32(sector.as_slice(), 0x2C);
    let fsinfo_sec: u16 = read_le_u16(sector.as_slice(), 0x30);
    if root_ent_cnt != 0 || fat_sz16 != 0 || fat_sz32 == 0 {
        return Err(VfsError::InvalidDevice);
    }
    if bytes_per_sec != SECTOR_SIZE as u16 {
        return Err(VfsError::InvalidInput);
    }
    if !(sec_per_clus == 1 || sec_per_clus == 2 || sec_per_clus == 4 || sec_per_clus == 8
        || sec_per_clus == 16 || sec_per_clus == 32 || sec_per_clus == 64 || sec_per_clus == 128) {
        return Err(VfsError::InvalidInput);
    }
    if rsvd_sec_cnt == 0 {
        return Err(VfsError::InvalidInput);
    }
    if num_fats == 0 {
        return Err(VfsError::InvalidInput);
    }
    if root_clus < 2 {
        return Err(VfsError::InvalidInput);
    }
    assert(num_fats * fat_sz32 <= 0xFF * 0xFFFF_FFFF) by (nonlinear_arith)
        requires
            num_fats <= 0xFF,
            fat_sz32 <= 0xFFFF_FFFF,
    ;
    assert(num_fats * fat_sz32 >= 1) by (nonlinear_arith)
        requires
            num_fats >= 1,
            fat_sz32 >= 1,
    ;
    let first_data_sec: u64 = rsvd_sec_cnt as u64 + (num_fats as u64) * (fat_sz32 as u64);
    let sz16: u16 = read_le_u16(sector.as_slice(), 0x13);
    let total_sectors: u64 = if sz16 != 0 {
        sz16 as u64
    } else {
        read_le_u32(sector.as_slice(), 0x20) as u64
    };
    if total_sectors <= first_data_sec {
        return Err(VfsError::InvalidInput);
    }
    if total_sectors > device.sector_count() {
        return Err(VfsError::InvalidInput);
    }
    let total_data_sectors: u64 = total_sectors - first_data_sec;
    let total_clus64: u64 = total_data_sectors / sec_per_clus as u64;
    assert(total_clus64 <= total_data_sectors && total_clus64 * sec_per_clus
        <= total_data_sectors) by (nonlinear_arith)
        requires
            sec_per_clus >= 1,
            total_clus64 == total_data_sectors / (sec_per_clus as u64),
    ;
    let total_clus: u32 = total_clus64 as u32;
    let byts_per_clus: u32 = (bytes_per_sec as u32) * (sec_per_clus as u32);
    let active_fat: u8 = sector[0x42];
    Ok(
        Bpb {
            bytes_per_sec,
            sec_per_clus,
            rsvd_sec_cnt,
            num_fats,
            fat_sz32,
            root_clus,
            fsinfo_sec,
            byts_per_clus,
            first_data_sec,
            total_clus,
            active_fat,
        },
    )
}

} // verus!
