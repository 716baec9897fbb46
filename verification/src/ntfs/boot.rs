//! The boot sector of an NTFS volume.

use crate::blockdriver::traits;
use crate::blockdriver::traits::BlockDevice;
use crate::bytes::{read_le_u16, read_le_u64};
use crate::ntfs::detail;
use crate::ntfs::detail::LastError;
use crate::ntfs::io::read_sectors;
use crate::vfs::VfsError;
use vstd::prelude::*;

verus! {

pub const BYTES_PER_SECTOR: u64 = 512;

/// "NTFS", padded with blanks.
pub const OEM_ID: [u8; 8] = [0x4E, 0x54, 0x46, 0x53, 0x20, 0x20, 0x20, 0x20];

/// What the driver needs of the boot sector.
#[derive(Debug, Clone, Copy, PartialEq, Eq, Structural)]
pub struct BootSector {
    pub total_sectors: u64,
    pub mft_lcn: u64,
    pub sectors_per_cluster: u8,
    pub bytes_per_sector: u64,
    /// The bytes of an MFT record.
    pub record_size: u64,
    /// The bytes of an index block.
    pub index_size: u64,
    /// Record numbers are below this.
    pub max_records: u64,
}

/// `n` is a power of two.
pub open spec fn is_pow2(n: int) -> bool
    decreases n,
{
    n == 1 || (n > 1 && n % 2 == 0 && is_pow2(n / 2))
}

/// Two to the power `n`.
pub open spec fn two_to(n: nat) -> int
    decreases n,
{
    if n == 0 {
        1
    } else {
        2 * two_to((n - 1) as nat)
    }
}

/// The byte, taken as a signed number.
pub open spec fn signed(b: u8) -> int {
    if b < 128 {
        b as int
    } else {
        b - 256
    }
}

/// The bytes of a unit that is given by a signed number: a positive one counts
/// clusters, a negative one is the power of two, the other way round.
pub open spec fn unit_bytes(value: int, cluster_size: int) -> Option<int> {
    if value > 0 {
        Some(cluster_size * value)
    } else if value < 0 && -value <= 16 {
        Some(two_to((-value) as nat))
    } else {
        None
    }
}

/// A size for records and index blocks: a power of two, from one sector to 64 KiB.
pub open spec fn is_unit(n: int) -> bool {
    512 <= n <= 65536 && is_pow2(n)
}

/// The sector starts as that of an NTFS volume does.
pub open spec fn is_ntfs(s: Seq<u8>) -> bool {
    s.subrange(3, 11) == OEM_ID@
}

/// The bytes of a cluster, as the sector says.
pub open spec fn cluster_bytes(s: Seq<u8>) -> int {
    512 * s[0x0D]
}

/// The volume has a geometry that the driver can work with, on a device of
/// `sectors` sectors.
pub open spec fn is_sound(s: Seq<u8>, sectors: int) -> bool {
    &&& crate::bytes::le16(s, 0x0B) == 512
    &&& is_pow2(s[0x0D] as int)
    &&& s[0x0D] <= 128
    &&& 0 < crate::bytes::le64(s, 0x28) <= sectors
    &&& crate::bytes::le64(s, 0x30) * s[0x0D] < crate::bytes::le64(s, 0x28)
    &&& unit_bytes(signed(s[0x40]), cluster_bytes(s)) is Some
    &&& is_unit(unit_bytes(signed(s[0x40]), cluster_bytes(s))->0)
    &&& unit_bytes(signed(s[0x44]), cluster_bytes(s)) is Some
    &&& is_unit(unit_bytes(signed(s[0x44]), cluster_bytes(s))->0)
    &&& capped(crate::bytes::le64(s, 0x28) * 512) / unit_bytes(
        signed(s[0x40]),
        cluster_bytes(s),
    )->0 > 0
}

/// The number, or the largest that 64 bits hold.
pub open spec fn capped(n: int) -> int {
    if n > u64::MAX {
        u64::MAX as int
    } else {
        n
    }
}

impl BootSector {
    /// The boot sector says what the sector `s` does.
    pub open spec fn describes(self, s: Seq<u8>) -> bool {
        &&& self.total_sectors == crate::bytes::le64(s, 0x28)
        &&& self.mft_lcn == crate::bytes::le64(s, 0x30)
        &&& self.sectors_per_cluster == s[0x0D]
        &&& self.bytes_per_sector == 512
        &&& self.record_size == unit_bytes(signed(s[0x40]), cluster_bytes(s))->0
        &&& self.index_size == unit_bytes(signed(s[0x44]), cluster_bytes(s))->0
        &&& self.max_records == capped(self.total_sectors * 512) / self.record_size as int
    }

    pub open spec fn inv(self) -> bool {
        &&& self.total_sectors > 0
        &&& is_pow2(self.sectors_per_cluster as int)
        &&& 1 <= self.sectors_per_cluster <= 128
        &&& self.bytes_per_sector == 512
        &&& self.mft_lcn * self.sectors_per_cluster < self.total_sectors
        &&& is_unit(self.record_size as int)
        &&& is_unit(self.index_size as int)
        &&& self.max_records > 0
    }

    /// The bytes of a cluster.
    pub open spec fn cluster(self) -> int {
        512 * self.sectors_per_cluster
    }
}

proof fn lemma_two_to(n: nat)
    requires
        n <= 16,
    ensures
        1 <= two_to(n) <= 65536,
        forall|k: nat| k <= n ==> #[trigger] two_to(k) <= two_to(n),
    decreases n,
{
    reveal_with_fuel(two_to, 17);
    if n > 0 {
        lemma_two_to((n - 1) as nat);
    }
}

/// Whether `n` is a power of two.
fn is_power_of_two(n: u64) -> (r: bool)
    ensures
        r == is_pow2(n as int),
{
    if n == 0 {
        return false;
    }
    let mut m: u64 = n;
    while m > 1 && m % 2 == 0
        invariant
            m > 0,
            is_pow2(m as int) == is_pow2(n as int),
        decreases m,
    {
        m = m / 2;
    }
    m == 1
}

/// The bytes of a unit that is given by a signed number.
fn unit_size(value: i32, cluster_size: u64) -> (r: Result<u64, VfsError>)
    requires
        -128 <= value < 128,
        cluster_size <= 65536,
    ensures
        match unit_bytes(value as int, cluster_size as int) {
            Some(n) => r == Ok::<u64, VfsError>(n as u64) && 0 <= n <= 65536 * 128,
            None => r == Err::<u64, VfsError>(VfsError::InvalidInput),
        },
{
    if value > 0 {
        proof {
            assert(cluster_size * value <= 65536 * 128) by (nonlinear_arith)
                requires
                    0 <= cluster_size <= 65536,
                    0 < value < 128,
            ;
            assert(cluster_size * value >= 0) by (nonlinear_arith)
                requires
                    0 <= cluster_size,
                    0 < value,
            ;
        }
        Ok(cluster_size * value as u64)
    } else if value < 0 {
        let shift: u32 = (-value) as u32;
        if shift > 16 {
            return Err(VfsError::InvalidInput);
        }
        let mut n: u64 = 1;
        let mut i: u32 = 0;
        while i < shift
            invariant
                i <= shift <= 16,
                n == two_to(i as nat),
            decreases shift - i,
        {
            proof {
                lemma_two_to(i as nat);
            }
            n = n * 2;
            i = i + 1;
        }
        proof {
            lemma_two_to(shift as nat);
        }
        Ok(n)
    } else {
        Err(VfsError::InvalidInput)
    }
}

/// The signed number in a byte.
fn signed_byte(b: u8) -> (r: i32)
    ensures
        r == signed(b),
        -128 <= r < 128,
{
    if b < 128 {
        b as i32
    } else {
        b as i32 - 256
    }
}

fn has_oem_id(sector: &Vec<u8>) -> (r: bool)
    requires
        sector@.len() == 512,
    ensures
        r == is_ntfs(sector@),
{
    let mut i: usize = 0;
    while i < 8
        invariant
            i <= 8,
            sector@.len() == 512,
            forall|k: int| 0 <= k < i ==> #[trigger] sector@.subrange(3, 11)[k] == OEM_ID@[k],
        decreases 8 - i,
    {
        if sector[3 + i] != OEM_ID[i] {
            assert(sector@.subrange(3, 11)[i as int] != OEM_ID@[i as int]);
            return false;
        }
        i = i + 1;
    }
    assert(sector@.subrange(3, 11) =~= OEM_ID@);
    true
}

fn unit_is_sound(n: u64) -> (r: bool)
    ensures
        r == is_unit(n as int),
{
    n >= BYTES_PER_SECTOR && n <= 65536 && is_power_of_two(n)
}

impl BootSector {
    /// Reads a boot sector, on a device of `sectors` sectors.
    pub fn parse_sector(sector: &Vec<u8>, sectors: u64) -> (r: Result<BootSector, VfsError>)
        requires
            sector@.len() == 512,
        ensures
            match r {
                Ok(b) => is_ntfs(sector@) && is_sound(sector@, sectors as int) && b.describes(
                    sector@,
                ) && b.inv(),
                Err(VfsError::InvalidDevice) => !is_ntfs(sector@),
                Err(VfsError::InvalidInput) => is_ntfs(sector@) && !is_sound(
                    sector@,
                    sectors as int,
                ),
                Err(_) => false,
            },
    {
        if !has_oem_id(sector) {
            return Err(VfsError::InvalidDevice);
        }
        if read_le_u16(sector, 0x0B) != 512 {
            return Err(VfsError::InvalidInput);
        }
        let spc: u8 = sector[0x0D];
        if !is_power_of_two(spc as u64) || spc > 128 {
            return Err(VfsError::InvalidInput);
        }
        let total: u64 = read_le_u64(sector, 0x28);
        if total == 0 || total > sectors {
            return Err(VfsError::InvalidInput);
        }
        let mft_lcn: u64 = read_le_u64(sector, 0x30);
        match mft_lcn.checked_mul(spc as u64) {
            Some(lba) => {
                if lba >= total {
                    return Err(VfsError::InvalidInput);
                }
            },
            None => {
                return Err(VfsError::InvalidInput);
            },
        }
        let cluster_size: u64 = BYTES_PER_SECTOR * spc as u64;
        let record_size: u64 = match unit_size(signed_byte(sector[0x40]), cluster_size) {
            Ok(n) => n,
            Err(e) => return Err(e),
        };
        if !unit_is_sound(record_size) {
            return Err(VfsError::InvalidInput);
        }
        let index_size: u64 = match unit_size(signed_byte(sector[0x44]), cluster_size) {
            Ok(n) => n,
            Err(e) => return Err(e),
        };
        if !unit_is_sound(index_size) {
            return Err(VfsError::InvalidInput);
        }
        let bytes: u64 = match total.checked_mul(BYTES_PER_SECTOR) {
            Some(n) => n,
            None => u64::MAX,
        };
        let max_records: u64 = bytes / record_size;
        if max_records == 0 {
            return Err(VfsError::InvalidInput);
        }
        Ok(
            BootSector {
                total_sectors: total,
                mft_lcn,
                sectors_per_cluster: spc,
                bytes_per_sector: BYTES_PER_SECTOR,
                record_size,
                index_size,
                max_records,
            },
        )
    }

    /// Reads the boot sector of a device. Nothing is noted of one that does not fit.
    pub fn parse<D: BlockDevice>(device: &mut D, why: &mut LastError) -> (r: Result<
        BootSector,
        VfsError,
    >)
        requires
            old(device).sector_len() == 512,
        ensures
            crate::fat32::io::same_device(*final(device), *old(device)),
            final(device).disk() == old(device).disk(),
            ({
                let s = crate::fat32::io::disk_range(old(device).disk(), 0, 512);
                match r {
                    Ok(b) => is_ntfs(s) && is_sound(s, old(device).sectors() as int)
                        && b.describes(s) && b.inv(),
                    Err(VfsError::InvalidDevice) => !is_ntfs(s),
                    Err(VfsError::InvalidInput) => is_ntfs(s) && !is_sound(
                        s,
                        old(device).sectors() as int,
                    ),
                    Err(e) => e == VfsError::IOError && traits::faults(*final(device))
                        > traits::faults(*old(device)),
                }
            }),
            r is Ok ==> traits::faults(*final(device)) == traits::faults(*old(device)),
            final(why).noted(
                *old(why),
                if r == Err::<BootSector, VfsError>(VfsError::IOError) {
                    detail::fault_text(*old(device), *final(device))
                } else {
                    None
                },
            ),
    {
        let sector: Vec<u8> = match read_sectors(device, 0, 1, why) {
            Ok(v) => v,
            Err(e) => return Err(e),
        };
        let sectors: u64 = device.sector_count();
        BootSector::parse_sector(&sector, sectors)
    }

    /// The bytes of a cluster.
    pub fn cluster_size(&self) -> (r: u64)
        requires
            self.inv(),
        ensures
            r == self.cluster(),
            512 <= r <= 65536,
    {
        self.bytes_per_sector * self.sectors_per_cluster as u64
    }

    /// The first sector of a cluster.
    pub fn cluster_to_lba(&self, cluster: u64) -> (r: u64)
        requires
            cluster * self.sectors_per_cluster <= u64::MAX,
        ensures
            r == cluster * self.sectors_per_cluster,
    {
        cluster * self.sectors_per_cluster as u64
    }
}

} // verus!
