//! The state of a mounted volume, and what its file allocation table says.

use vstd::prelude::*;

use crate::blockdriver::traits;
use crate::blockdriver::traits::BlockDevice;
use crate::bytes;
use crate::bytes::{put_le_u32, read_le_u32};
use crate::collections;
use crate::collections::{ChainMap, HandleMap, InoMap, LbaSet};
use crate::fat32::bitmap::AllocBitmap;
use crate::fat32::bpb::Bpb;
use crate::fat32::cache;
use crate::fat32::cache::FatCache;
use crate::fat32::io;
use crate::fat32::io::SECTOR_SIZE;
use crate::fat32::orphans::Unlinked;
use crate::vfs::VfsError;

verus! {

/// Table entries from here on mark the end of a chain.
pub const EOC_MARKER: u32 = 0x0FFFFFF8;

/// The table entry of a free cluster.
pub const FREE_CLUSTER: u32 = 0;

/// The number of values that a table entry can take: its upper four bits are
/// reserved.
pub const ENTRY_MODULUS: u32 = 0x1000_0000;

/// No chain that is remembered is empty.
#[verifier::opaque]
pub open spec fn none_empty(m: ChainMap) -> bool {
    forall|c: u32| #[trigger]
        collections::chain_map(m).contains_key(c) ==> collections::chain_map(m)[c].len() > 0
}

/// A mounted volume.
pub struct Fat32SuperBlock<D: BlockDevice> {
    pub device: D,
    pub bpb: Bpb,
    pub fat_cache: FatCache,
    pub next_ino: u64,
    /// Stable inode numbers by parent directory and case-folded name. The volume
    /// has no inode table, so that a file is identified by its place in the tree.
    pub ino_map: InoMap,
    /// The handles open on each place in the tree. Removing a name tells a file
    /// that is still open, whose clusters the last handle frees, from one that is
    /// not, whose clusters are freed at once.
    pub handle_registry: HandleMap,
    /// The handles that are open.
    pub open_handles: LbaSet,
    /// The handles whose name is gone, and their files.
    pub unlinked_handles: Unlinked,
    pub next_handle: u64,
    /// Chains by their first cluster.
    pub chain_cache: ChainMap,
    /// One bit per cluster; none on a volume too large for it, where the table
    /// itself is searched.
    pub alloc_bitmap: Option<AllocBitmap>,
    pub next_alloc_hint: u32,
    pub free_clus_count: u32,
    pub volume_dirty: bool,
}

impl<D: BlockDevice> Fat32SuperBlock<D> {
    /// What holds of every mounted volume, however damaged its contents are.
    pub open spec fn inv(self) -> bool {
        &&& self.bpb.wf()
        &&& self.device.sector_len() == SECTOR_SIZE
        &&& self.fat_cache.inv()
        &&& self.fat_cache.fat0_lba == self.bpb.rsvd_sec_cnt
        &&& self.fat_cache.active_lba == self.bpb.active_lba()
        &&& self.fat_cache.fat_sz == self.bpb.fat_sz32
        &&& self.fat_cache.num_fats == self.bpb.num_fats
        &&& self.fat_cache.mirrored == (self.bpb.active_fat < 0x80)
        &&& 2 <= self.next_alloc_hint <= 2 + self.bpb.total_clus
        &&& self.alloc_bitmap matches Some(b) ==> b.capacity() >= self.bpb.total_clus
        &&& none_empty(self.chain_cache)
    }

    /// How many submissions the device has failed to carry out so far.
    pub open spec fn faults(self) -> nat {
        traits::faults(self.device)
    }

    /// The geometry is consistent: the table in use is one of those before the
    /// clusters, it has an entry for each cluster, no cluster number is an end mark, and the information sector
    /// precedes the tables.
    pub open spec fn geometry_ok(self) -> bool {
        &&& self.bpb.active_idx() < self.bpb.num_fats
        &&& self.bpb.total_clus + 2 <= self.bpb.fat_sz32 * 128
        &&& self.bpb.total_clus + 2 <= EOC_MARKER
        &&& self.bpb.fsinfo_sec < self.bpb.rsvd_sec_cnt || self.bpb.fsinfo_sec == 0xFFFF
    }

    /// The geometry is consistent, and the table in memory and on the device agree
    /// but for what is still to be written back.
    pub open spec fn sound(self) -> bool {
        &&& self.inv()
        &&& self.geometry_ok()
        &&& self.fat_cache.coherent(self.device.disk())
        &&& self.fat_cache.dirty_in_table()
    }

    /// The sector that holds the table entry of cluster `c`.
    pub open spec fn entry_lba(self, c: int) -> u64 {
        (self.bpb.active_lba() + c / 128) as u64
    }

    /// The table entry of cluster `c`.
    #[verifier::opaque]
    pub open spec fn entry(self, c: int) -> int {
        bytes::le32(
            self.fat_cache.logical(self.device.disk(), self.entry_lba(c)),
            (c % 128) * 4,
        ) % 0x1000_0000
    }

    /// The table has an entry for `c`.
    pub open spec fn has_entry(self, c: int) -> bool {
        0 <= c < self.bpb.fat_sz32 * 128 && c < 0x4000_0000
    }

    /// `c` names a cluster of the volume.
    pub open spec fn is_cluster(self, c: int) -> bool {
        2 <= c < 2 + self.bpb.total_clus
    }

    /// All but the table cache and the contents of the device are the same.
    pub open spec fn same_rest(self, o: Self) -> bool {
        &&& self.bpb == o.bpb
        &&& self.next_ino == o.next_ino
        &&& self.ino_map == o.ino_map
        &&& self.handle_registry == o.handle_registry
        &&& self.open_handles == o.open_handles
        &&& self.unlinked_handles == o.unlinked_handles
        &&& self.next_handle == o.next_handle
        &&& self.chain_cache == o.chain_cache
        &&& self.alloc_bitmap == o.alloc_bitmap
        &&& self.next_alloc_hint == o.next_alloc_hint
        &&& self.free_clus_count == o.free_clus_count
        &&& self.volume_dirty == o.volume_dirty
        &&& io::same_device(self.device, o.device)
    }

    /// `lba` is outside the area that the tables occupy.
    pub open spec fn outside_tables(self, lba: int) -> bool {
        lba < self.bpb.rsvd_sec_cnt || self.bpb.first_data_sec <= lba
    }

    /// The device holds the same outside the tables.
    pub open spec fn same_data(self, o: Self) -> bool {
        forall|l: u64|
            self.outside_tables(l as int) ==> #[trigger] cache::sector_at(
                self.device.disk(),
                l as int,
            ) == cache::sector_at(o.device.disk(), l as int)
    }

    /// Every entry of the table is the same.
    pub open spec fn same_table(self, o: Self) -> bool {
        forall|c: int| o.has_entry(c) ==> #[trigger] self.entry(c) == o.entry(c)
    }

    /// The step from `o` to `self` left everything that can be observed as it was:
    /// sectors may have been cached or written back.
    pub open spec fn quiet(self, o: Self) -> bool {
        &&& self.inv()
        &&& self.same_rest(o)
        &&& o.sound() ==> self.sound() && self.same_data(o) && self.same_table(o)
    }

    /// The table is what the geometry, the cache and the device make it.
    pub proof fn lemma_same_source(self, o: Self)
        requires
            self.bpb == o.bpb,
            self.fat_cache == o.fat_cache,
            self.device.disk() == o.device.disk(),
        ensures
            forall|x: int| #[trigger] self.entry(x) == o.entry(x),
    {
        reveal(Fat32SuperBlock::entry);
    }

    /// What two steps leave alone is left alone by both together.
    pub proof fn lemma_same_data_trans(self, mid: Self, o: Self)
        requires
            self.same_data(mid),
            mid.same_data(o),
            self.bpb == mid.bpb,
        ensures
            self.same_data(o),
    {
        assert forall|l: u64| self.outside_tables(l as int) implies #[trigger] cache::sector_at(
            self.device.disk(),
            l as int,
        ) == cache::sector_at(o.device.disk(), l as int) by {
            assert(cache::sector_at(mid.device.disk(), l as int) == cache::sector_at(
                o.device.disk(),
                l as int,
            ));
        }
    }

    /// Two steps that leave all as it was do so together.
    pub proof fn lemma_quiet_trans(self, mid: Self, o: Self)
        requires
            self.quiet(mid),
            mid.quiet(o),
        ensures
            self.quiet(o),
    {
        if o.sound() {
            self.lemma_same_data_trans(mid, o);
            assert forall|c: int| o.has_entry(c) implies #[trigger] self.entry(c) == o.entry(c) by {
                assert(mid.has_entry(c));
                assert(mid.entry(c) == o.entry(c));
            }
        }
    }

    /// The sector of an entry that the table has belongs to the table.
    pub proof fn lemma_entry_in_table(self, c: int)
        requires
            self.inv(),
            self.has_entry(c),
        ensures
            self.fat_cache.in_table(self.entry_lba(c) as int),
            self.entry_lba(c) == self.bpb.active_lba() + c / 128,
            self.bpb.active_lba() + c / 128 < cache::LBA_LIMIT,
    {
        self.lemma_active_bound();
    }

    pub proof fn lemma_active_bound(self)
        requires
            self.inv(),
        ensures
            self.bpb.rsvd_sec_cnt <= self.bpb.active_lba() <= 0xFFFF + 15 * 0xFFFF_FFFF,
            self.geometry_ok() ==> self.bpb.active_lba() + self.bpb.fat_sz32
                <= self.bpb.first_data_sec,
    {
        let i = self.bpb.active_idx();
        let f = self.bpb.fat_sz32 as int;
        let n = self.bpb.num_fats as int;
        assert(0 <= i <= 15);
        assert(0 <= i * f <= 15 * 0xFFFF_FFFF) by (nonlinear_arith)
            requires
                0 <= i <= 15,
                0 <= f <= 0xFFFF_FFFF,
        ;
        if i < n {
            assert(i * f + f <= n * f) by (nonlinear_arith)
                requires
                    i + 1 <= n,
                    f >= 0,
            ;
        }
    }

    /// Sectors that a cache step may write belong to the tables.
    proof fn lemma_cache_step(self, next: Self)
        requires
            self.sound(),
            next.inv(),
            next.bpb == self.bpb,
            self.fat_cache.touches_only_dirty(self.device.disk(), next.device.disk()),
        ensures
            next.same_data(self),
    {
        self.lemma_active_bound();
        assert forall|l: u64| next.outside_tables(l as int) implies #[trigger] cache::sector_at(
            next.device.disk(),
            l as int,
        ) == cache::sector_at(self.device.disk(), l as int) by {
            if self.fat_cache.dirty_set().contains(l) {
                assert(self.fat_cache.in_table(l as int));
            }
        }
    }

    /// A step that leaves the sectors of the table as they are seen leaves the table alone.
    proof fn lemma_table_kept(self, next: Self)
        requires
            self.sound(),
            next.inv(),
            next.bpb == self.bpb,
            forall|l: u64|
                self.fat_cache.in_table(l as int) ==> #[trigger] next.fat_cache.logical(
                    next.device.disk(),
                    l,
                ) == self.fat_cache.logical(self.device.disk(), l),
        ensures
            next.same_table(self),
    {
        assert forall|x: int| self.has_entry(x) implies #[trigger] next.entry(x) == self.entry(
            x,
        ) by {
            reveal(Fat32SuperBlock::entry);
            self.lemma_entry_in_table(x);
        }
    }

    /// No sector of the table has become dirty since `o`.
    pub open spec fn none_dirtied(self, o: Self) -> bool {
        forall|l: u64| #[trigger]
            self.fat_cache.dirty_set().contains(l) ==> o.fat_cache.dirty_set().contains(l)
    }

    /// All changes of the table have been written to the device.
    pub open spec fn written_back(self) -> bool {
        self.fat_cache.dirty_set() == Set::<u64>::empty()
    }

    /// Where nothing has become dirty, nothing is still to be written.
    pub proof fn lemma_still_written_back(self, o: Self)
        requires
            o.written_back(),
            self.none_dirtied(o),
        ensures
            self.written_back(),
    {
        assert(self.fat_cache.dirty_set() =~= Set::<u64>::empty());
    }

    /// The sectors that were dirty in `o` are on the device now, and so are their copies.
    pub open spec fn wrote_copies(self, o: Self) -> bool {
        forall|l: u64|
            o.fat_cache.dirty_set().contains(l) ==> #[trigger] o.fat_cache.stored(
                self.device.disk(),
                l,
            )
    }

    /// The table entry of `cluster`, whose upper four bits are dropped.
    pub fn read_fat_entry(&mut self, cluster: u32) -> (r: Result<u32, VfsError>)
        requires
            old(self).inv(),
        ensures
            final(self).quiet(*old(self)),
            final(self).none_dirtied(*old(self)),
            match r {
                Ok(v) => v == old(self).entry(cluster as int % 0x4000_0000),
                Err(e) => e == VfsError::IOError && final(self).faults() > old(self).faults(),
            },
            old(self).fat_cache.contents().contains_key(
                old(self).entry_lba(cluster as int % 0x4000_0000),
            ) ==> r is Ok && *final(self) == *old(self),
    {
        let (sector_idx, offset) = self.bpb.fat_entry_position(cluster);
        let fat_idx: u8 = self.bpb.active_fat_idx();
        proof {
            self.lemma_active_bound();
        }
        let lba: u64 = self.bpb.fat_sector_lba(fat_idx, sector_idx);
        let ghost c = cluster as int % 0x4000_0000;
        assert(sector_idx == c / 128 && offset == (c % 128) * 4);
        assert(lba == self.entry_lba(c));
        let r = self.fat_cache.get_or_read(&mut self.device, lba);
        proof {
            let (a, b) = (*old(self), *self);
            if a.sound() {
                a.lemma_cache_step(b);
                a.lemma_table_kept(b);
            }
        }
        let sector: [u8; 512] = match r {
            Ok(s) => s,
            Err(e) => return Err(e),
        };
        assert(old(self).entry(c) == bytes::le32(sector@, (c % 128) * 4) % 0x1000_0000) by {
            reveal(Fat32SuperBlock::entry);
        }
        let val: u32 = read_le_u32(&sector, offset as usize);
        Ok(val % ENTRY_MODULUS)
    }

    /// The table holds `v` for `c`, and for all other clusters what it held in `o`.
    pub open spec fn entry_set(self, o: Self, c: int, v: int) -> bool {
        forall|x: int|
            o.has_entry(x) ==> #[trigger] self.entry(x) == (if x == c {
                v
            } else {
                o.entry(x)
            })
    }

    /// The four bytes that the table holds for `c`, as a number; its upper four bits are no
    /// part of the entry.
    #[verifier::opaque]
    pub open spec fn raw_entry(self, c: int) -> int {
        bytes::le32(
            self.fat_cache.logical(self.device.disk(), self.entry_lba(c)),
            (c % 128) * 4,
        )
    }

    /// The four bytes for `c` are those of `v`, and those for all other clusters what they
    /// were in `o`.
    pub open spec fn bytes_set(self, o: Self, c: int, v: int) -> bool {
        forall|x: int|
            o.has_entry(x) ==> #[trigger] self.raw_entry(x) == (if x == c {
                v
            } else {
                o.raw_entry(x)
            })
    }

    /// Sets the table entry of `cluster`; the upper four bits of `value` are dropped.
    pub fn write_fat_entry(&mut self, cluster: u32, value: u32) -> (r: Result<(), VfsError>)
        requires
            old(self).inv(),
        ensures
            final(self).inv(),
            final(self).same_rest(*old(self)),
            match r {
                Ok(_) => old(self).sound() && old(self).has_entry(cluster as int)
                    ==> final(self).sound() && final(self).same_data(*old(self))
                    && final(self).entry_set(
                    *old(self),
                    cluster as int,
                    value as int % 0x1000_0000,
                ) && final(self).bytes_set(
                    *old(self),
                    cluster as int,
                    value as int % 0x1000_0000,
                ),
                Err(e) => e == VfsError::IOError && final(self).quiet(*old(self))
                    && final(self).faults() > old(self).faults(),
            },
    {
        let (sector_idx, offset) = self.bpb.fat_entry_position(cluster);
        let fat_idx: u8 = self.bpb.active_fat_idx();
        proof {
            self.lemma_active_bound();
        }
        let lba: u64 = self.bpb.fat_sector_lba(fat_idx, sector_idx);
        let ghost c = cluster as int % 0x4000_0000;
        assert(sector_idx == c / 128 && offset == (c % 128) * 4);
        assert(lba == self.entry_lba(c));
        let ghost a = *self;
        let r = self.fat_cache.get_or_read_mut(&mut self.device, lba);
        let ghost m = *self;
        proof {
            reveal(Fat32SuperBlock::entry);
            assert forall|x: int| a.sound() && a.has_entry(x) implies #[trigger] m.entry(x)
                == a.entry(x) by {
                a.lemma_entry_in_table(x);
                assert(m.entry_lba(x) == a.entry_lba(x));
                assert(m.fat_cache.logical(m.device.disk(), m.entry_lba(x)) == a.fat_cache.logical(
                    a.device.disk(),
                    a.entry_lba(x),
                ));
            }
            if a.sound() {
                a.lemma_cache_step(m);
            }
        }
        let mut sector: [u8; 512] = match r {
            Ok(s) => s,
            Err(e) => return Err(e),
        };
        let ghost before = sector@;
        put_le_u32(&mut sector, offset as usize, value % ENTRY_MODULUS);
        self.fat_cache.replace(lba, sector);
        proof {
            let b = *self;
            if a.sound() && a.has_entry(cluster as int) {
                a.lemma_entry_in_table(c);
                let v = value as int % 0x1000_0000;
                assert forall|x: int| a.has_entry(x) implies #[trigger] b.entry(x) == (if x == c {
                    v
                } else {
                    a.entry(x)
                }) by {
                    a.lemma_entry_in_table(x);
                    assert(b.entry_lba(x) == a.entry_lba(x));
                    assert(m.entry(x) == a.entry(x));
                    if x / 128 == c / 128 {
                        assert(b.fat_cache.logical(b.device.disk(), b.entry_lba(x)) == sector@);
                        bytes::lemma_le32_round_trip(before, offset as int, v);
                        if x != c {
                            assert(bytes::le32(sector@, (x % 128) * 4) == bytes::le32(
                                before,
                                (x % 128) * 4,
                            ));
                        }
                    } else {
                        assert(b.entry_lba(x) != lba);
                        assert(b.fat_cache.logical(b.device.disk(), b.entry_lba(x))
                            == m.fat_cache.logical(m.device.disk(), b.entry_lba(x)));
                    }
                }
                assert forall|x: int| a.has_entry(x) implies #[trigger] b.raw_entry(x) == (if x
                    == c {
                    v
                } else {
                    a.raw_entry(x)
                }) by {
                    reveal(Fat32SuperBlock::raw_entry);
                    a.lemma_entry_in_table(x);
                    assert(b.entry_lba(x) == a.entry_lba(x) && m.entry_lba(x) == a.entry_lba(x));
                    assert(m.fat_cache.logical(m.device.disk(), m.entry_lba(x))
                        == a.fat_cache.logical(a.device.disk(), a.entry_lba(x)));
                    if x / 128 == c / 128 {
                        assert(b.fat_cache.logical(b.device.disk(), b.entry_lba(x)) == sector@);
                        bytes::lemma_le32_round_trip(before, offset as int, v);
                        if x != c {
                            assert(bytes::le32(sector@, (x % 128) * 4) == bytes::le32(
                                before,
                                (x % 128) * 4,
                            ));
                        }
                    } else {
                        assert(b.entry_lba(x) != lba);
                        assert(b.fat_cache.logical(b.device.disk(), b.entry_lba(x))
                            == m.fat_cache.logical(m.device.disk(), b.entry_lba(x)));
                    }
                }
            }
        }
        Ok(())
    }

    /// Writes the changed sectors of the table to the device.
    pub fn flush_fat_cache(&mut self) -> (r: Result<(), VfsError>)
        requires
            old(self).inv(),
        ensures
            final(self).quiet(*old(self)),
            match r {
                Ok(_) => final(self).written_back() && final(self).wrote_copies(*old(self)),
                Err(e) => e == VfsError::IOError && final(self).faults() > old(self).faults(),
            },
    {
        let ghost a = *self;
        let r = self.fat_cache.flush(&mut self.device);
        proof {
            let b = *self;
            if a.sound() {
                a.lemma_cache_step(b);
                a.lemma_table_kept(b);
            }
        }
        r
    }
}

} // verus!
