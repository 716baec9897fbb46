//! Mounting a volume.

use vstd::prelude::*;

use crate::blockdriver::traits;
use crate::blockdriver::traits::BlockDevice;
use crate::bytes;
use crate::bytes::read_le_u32;
use crate::collections::{ChainMap, HandleMap, InoMap, LbaSet};
use crate::fat32::bpb;
use crate::fat32::bpb::{parse_bpb, Bpb};
use crate::fat32::cache;
use crate::fat32::cache::FatCache;
use crate::fat32::inode::Fat32Inode;
use crate::fat32::io;
use crate::fat32::io::{read_sectors, SECTOR_SIZE};
use crate::fat32::orphans;
use crate::fat32::orphans::Unlinked;
use crate::fat32::superblock;
use crate::fat32::superblock::Fat32SuperBlock;
use crate::fat32::upkeep;
use crate::fat32::upkeep::{FSINFO_LEAD_SIG, FSINFO_STRUCT_SIG};
use crate::vfs::{FileType, VfsError};

verus! {

/// The FAT32 file system.
pub struct Fat32FileSystem;

/// The hint that the information sector `s` gives, where it is one and the hint names a
/// cluster.
pub open spec fn stored_hint(s: Seq<u8>, total_clus: int) -> Option<int> {
    let hint = bytes::le32(s, 492);
    if bytes::le32(s, 0) == FSINFO_LEAD_SIG && bytes::le32(s, 484) == FSINFO_STRUCT_SIG && 2 <= hint
        < 2 + total_clus {
        Some(hint)
    } else {
        None
    }
}

/// `b` are the contents `a` of a device with the volume marked as in use.
pub open spec fn marked_in_use(a: spec_fn(int) -> u8, b: spec_fn(int) -> u8) -> bool {
    &&& cache::sector_at(b, 0) == upkeep::with_dirty_bit(cache::sector_at(a, 0), true)
    &&& io::same_outside(b, a, 0, 512)
}

impl<D: BlockDevice> Fat32SuperBlock<D> {
    /// The volume was just mounted: nothing is cached, and no file is open.
    pub open spec fn fresh(self) -> bool {
        &&& self.fat_cache.contents() == (Map::<u64, Seq<u8>>::empty())
        &&& self.fat_cache.dirty_set() == Set::<u64>::empty()
        &&& self.next_ino == 2
        &&& self.inos() == (Map::<(u32, Seq<char>), u64>::empty())
        &&& self.handles() == (Map::<(u32, Seq<char>), Seq<u64>>::empty())
        &&& self.open_set() == Set::<u64>::empty()
        &&& self.unlinked_set() == Set::<u64>::empty()
        &&& self.orphans() == Seq::<orphans::OrphanView>::empty()
        &&& self.next_handle == 1
        &&& self.chains() == (Map::<u32, Seq<u32>>::empty())
        &&& self.volume_dirty
    }

    /// The volume is in use, its free clusters were counted, and its bitmap, where it has
    /// one, was built.
    pub open spec fn counted(self) -> bool {
        &&& self.next_alloc_hint == 2 || (self.bpb.fsinfo_sec != 0 && self.bpb.fsinfo_sec != 0xFFFF
            && stored_hint(
            cache::sector_at(self.device.disk(), self.bpb.fsinfo_sec as int),
            self.bpb.total_clus as int,
        ) == Some(self.next_alloc_hint as int))
        &&& self.free_clus_count == upkeep::count_where(
            |c: int| self.disk_entry(c) == 0,
            2,
            self.scan_end(),
        )
        &&& self.alloc_bitmap is Some <==> self.bpb.total_clus <= upkeep::BITMAP_MAX_CLUSTERS
        &&& self.alloc_bitmap matches Some(b) ==> self.bitmap_matches(b, self.scan_end())
    }

    /// The search for free clusters starts where the volume says, if it says so.
    pub open spec fn hinted(self) -> bool {
        let stored = stored_hint(
            cache::sector_at(self.device.disk(), self.bpb.fsinfo_sec as int),
            self.bpb.total_clus as int,
        );
        self.next_alloc_hint as int == (if self.bpb.fsinfo_sec != 0 && self.bpb.fsinfo_sec != 0xFFFF
            && stored is Some {
            stored->0
        } else {
            2
        })
    }

    /// Puts a volume in use, of which nothing is known but its geometry: marks it so, takes
    /// the hint that is stored on it, and counts its free clusters. A hint that cannot be
    /// read is done without.
    pub fn put_in_use(&mut self) -> (r: Result<(), VfsError>)
        requires
            old(self).inv(),
            old(self).next_alloc_hint == 2,
            !old(self).volume_dirty,
        ensures
            final(self).inv(),
            io::same_device(final(self).device, old(self).device),
            match r {
                Ok(_) => {
                    &&& marked_in_use(old(self).device.disk(), final(self).device.disk())
                    &&& final(self).counted()
                    &&& final(self).faults() == old(self).faults() ==> final(self).hinted()
                    &&& *final(self) == (Fat32SuperBlock {
                        device: final(self).device,
                        volume_dirty: true,
                        next_alloc_hint: final(self).next_alloc_hint,
                        free_clus_count: final(self).free_clus_count,
                        alloc_bitmap: final(self).alloc_bitmap,
                        ..*old(self)
                    })
                },
                Err(e) => e == VfsError::IOError && final(self).faults() > old(self).faults(),
            },
    {
        let ghost d0 = self.device;
        match self.set_volume_dirty_flag() {
            Ok(_) => {},
            Err(e) => return Err(e),
        }
        assert(marked_in_use(d0.disk(), self.device.disk()));
        if self.bpb.fsinfo_is_valid() {
            match read_sectors(&mut self.device, self.bpb.fsinfo_sec as u64, 1) {
                Ok(info) => {
                    let hint: u32 = read_le_u32(info.as_slice(), 492);
                    if read_le_u32(info.as_slice(), 0) == FSINFO_LEAD_SIG && read_le_u32(
                        info.as_slice(),
                        484,
                    ) == FSINFO_STRUCT_SIG && hint >= 2 && (hint as u64) < 2
                        + self.bpb.total_clus as u64 {
                        self.next_alloc_hint = hint;
                    }
                },
                Err(_) => {},
            }
        }
        let ghost hinted = *self;
        let free: u32 = match self.scan_free_clusters() {
            Ok(n) => n,
            Err(e) => return Err(e),
        };
        self.free_clus_count = free;
        assert((|c: int| self.disk_entry(c) == 0) =~= (|c: int| hinted.disk_entry(c) == 0));
        Ok(())
    }

    /// A volume that was just mounted is sound, and its bitmap is in step, where its
    /// geometry is consistent.
    proof fn lemma_fresh_tracked(self)
        requires
            self.inv(),
            self.fresh(),
            self.geometry_ok(),
            self.alloc_bitmap matches Some(b) ==> self.bitmap_matches(b, self.scan_end()),
        ensures
            self.tracked_ok(),
    {
        reveal(Fat32SuperBlock::entry);
        assert forall|c: int| self.has_entry(c) implies self.disk_entry(c) == #[trigger] self.entry(
            c,
        ) by {
            self.lemma_entry_in_table(c);
        }
        if self.alloc_bitmap is Some {
            let b = self.alloc_bitmap->0;
            assert forall|i: int| 0 <= i < self.bpb.total_clus implies #[trigger] b.bit(i) == (
            self.entry(i + 2) != 0) by {
                assert(self.has_entry(i + 2));
                assert(self.disk_entry(i + 2) == self.entry(i + 2));
            }
        }
    }
}

/// What mounting a device gives.
pub open spec fn mount_gives<D: BlockDevice>(
    device: Option<D>,
    r: Result<(Fat32SuperBlock<D>, Fat32Inode), VfsError>,
) -> bool {
    match device {
        None => r == Err::<(Fat32SuperBlock<D>, Fat32Inode), VfsError>(VfsError::InvalidDevice),
        Some(d) => {
            let s = io::disk_range(d.disk(), 0, 512);
            match r {
                Ok((sb, root)) => {
                    &&& bpb::is_fat32_boot(s)
                    &&& bpb::is_valid_geometry(s, d.sectors() as int)
                    &&& sb.bpb.describes(s)
                    &&& sb.inv()
                    &&& sb.fresh()
                    &&& io::same_device(sb.device, d)
                    &&& marked_in_use(d.disk(), sb.device.disk())
                    &&& sb.counted()
                    &&& traits::faults(sb.device) == traits::faults(d) ==> sb.hinted()
                    &&& sb.geometry_ok() ==> sb.tracked_ok()
                    &&& root.first_clus == sb.bpb.root_clus
                    &&& root.size == 0
                    &&& root.file_type == FileType::Directory
                    &&& root.mtime == 0
                    &&& root.placed_at(sb.bpb.root_clus, Seq::empty(), 1, 0)
                },
                Err(VfsError::InvalidDevice) => !bpb::is_fat32_boot(s),
                Err(VfsError::InvalidInput) => bpb::is_fat32_boot(s) && !bpb::is_valid_geometry(
                    s,
                    d.sectors() as int,
                ),
                Err(e) => e == VfsError::IOError && traits::has_failed(d),
            }
        },
    }
}

impl Fat32FileSystem {
    pub fn name(&self) -> (r: &str)
        ensures
            r@ == "fat32"@,
    {
        "fat32"
    }

    /// Mounts the volume on a device: reads its geometry, marks it as in use, and counts
    /// its free clusters. Gives the volume and its root directory.
    pub fn mount<D: BlockDevice>(&self, device: Option<D>) -> (r: Result<
        (Fat32SuperBlock<D>, Fat32Inode),
        VfsError,
    >)
        requires
            device matches Some(d) ==> d.sector_len() == SECTOR_SIZE,
        ensures
            mount_gives(device, r),
    {
        let mut dev: D = match device {
            Some(d) => d,
            None => return Err(VfsError::InvalidDevice),
        };
        let ghost d0 = dev;
        let geometry: Bpb = match parse_bpb(&mut dev) {
            Ok(b) => b,
            Err(e) => {
                assert(io::same_device(dev, d0));
                return Err(e);
            },
        };
        match read_sectors(&mut dev, 0, 1) {
            Ok(_) => {},
            Err(e) => {
                assert(io::same_device(dev, d0));
                return Err(e);
            },
        }
        proof {
            reveal(superblock::none_empty);
        }
        let mut sb: Fat32SuperBlock<D> = Fat32SuperBlock {
            device: dev,
            bpb: geometry,
            fat_cache: FatCache::new(&geometry),
            next_ino: 2,
            ino_map: InoMap::new(),
            handle_registry: HandleMap::new(),
            open_handles: LbaSet::new(),
            unlinked_handles: Unlinked::new(),
            next_handle: 1,
            chain_cache: ChainMap::new(),
            alloc_bitmap: None,
            next_alloc_hint: 2,
            free_clus_count: 0,
            volume_dirty: false,
        };
        let ghost begun = sb;
        match sb.put_in_use() {
            Ok(_) => {},
            Err(e) => {
                assert(io::same_device(sb.device, d0));
                return Err(e);
            },
        }
        let root = Fat32Inode {
            first_clus: sb.bpb.root_clus,
            size: 0,
            file_type: FileType::Directory,
            ino: 1,
            mtime: 0,
            parent_clus: sb.bpb.root_clus,
            entry_name: String::new(),
            handle: 0,
            dir_cache: None,
            dir_generation: 0,
        };
        proof {
            assert(sb.fresh());
            assert(root.entry_name@ =~= Seq::<char>::empty());
            if sb.geometry_ok() {
                sb.lemma_fresh_tracked();
            }
        }
        Ok((sb, root))
    }
}

} // verus!
