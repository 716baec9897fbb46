//! Counting free clusters, the information sector, the dirty flag and flushing.

use vstd::prelude::*;

use crate::blockdriver::traits::BlockDevice;
use crate::bytes;
use crate::bytes::{put_le_u32, read_le_u32};
use crate::fat32::bitmap::AllocBitmap;
use crate::fat32::cache;
use crate::fat32::io;
use crate::fat32::io::{read_sectors, write_sectors};
use crate::fat32::superblock::{Fat32SuperBlock, ENTRY_MODULUS, FREE_CLUSTER};
use crate::vfs::{StatFs, VfsError};

verus! {

pub const FSINFO_LEAD_SIG: u32 = 0x41615252;

pub const FSINFO_STRUCT_SIG: u32 = 0x61417272;

pub const FSINFO_TRAIL_SIG: u32 = 0xAA550000;

/// A volume with more clusters has no bitmap.
pub const BITMAP_MAX_CLUSTERS: u32 = 16 * 1024 * 1024;

/// Most sectors that one read of the scan asks for.
pub const SCAN_CHUNK: u32 = 504;

/// The number of places from `lo` to `hi` at which `f` holds.
pub open spec fn count_where(f: spec_fn(int) -> bool, lo: int, hi: int) -> int
    decreases hi - lo,
{
    if hi <= lo {
        0
    } else {
        count_where(f, lo, hi - 1) + (if f(hi - 1) {
            1int
        } else {
            0int
        })
    }
}

proof fn lemma_count_bound(f: spec_fn(int) -> bool, lo: int, hi: int)
    requires
        lo <= hi,
    ensures
        0 <= count_where(f, lo, hi) <= hi - lo,
    decreases hi - lo,
{
    if lo < hi {
        lemma_count_bound(f, lo, hi - 1);
    }
}

/// The information sector `s` with the count of free clusters and the hint in it.
pub open spec fn fsinfo_of(s: Seq<u8>, free: int, hint: int) -> Seq<u8> {
    bytes::splice(
        bytes::splice(
            bytes::splice(
                bytes::splice(
                    bytes::splice(s, 0, bytes::le32_bytes(FSINFO_LEAD_SIG as int)),
                    484,
                    bytes::le32_bytes(FSINFO_STRUCT_SIG as int),
                ),
                488,
                bytes::le32_bytes(free),
            ),
            492,
            bytes::le32_bytes(hint),
        ),
        508,
        bytes::le32_bytes(FSINFO_TRAIL_SIG as int),
    )
}

impl<D: BlockDevice> Fat32SuperBlock<D> {
    /// The entry of cluster `c` in the table as the device holds it.
    pub open spec fn disk_entry(self, c: int) -> int {
        bytes::le32(
            cache::sector_at(self.device.disk(), self.bpb.active_lba() + c / 128),
            (c % 128) * 4,
        ) % 0x1000_0000
    }

    /// The cluster after the last one whose entry the table holds.
    pub open spec fn scan_end(self) -> int {
        if 2 + self.bpb.total_clus <= self.bpb.fat_sz32 * 128 {
            2 + self.bpb.total_clus
        } else {
            self.bpb.fat_sz32 * 128
        }
    }

    /// The bits of `b` for the clusters before `end` say which entries on the device
    /// are not zero; all others are clear.
    pub open spec fn bitmap_matches(self, b: AllocBitmap, end: int) -> bool {
        &&& b.capacity() >= self.bpb.total_clus
        &&& forall|i: int|
            0 <= i < self.bpb.total_clus ==> #[trigger] b.bit(i) == (i + 2 < end
                && self.disk_entry(i + 2) != 0)
    }

    /// Counts the free clusters by the table on the device, and builds the bitmap on
    /// the way.
    pub fn scan_free_clusters(&mut self) -> (r: Result<u32, VfsError>)
        requires
            old(self).inv(),
        ensures
            final(self).inv(),
            final(self).fat_cache == old(self).fat_cache,
            final(self).device.disk() == old(self).device.disk(),
            match r {
                Ok(n) => n == count_where(
                    |c: int| old(self).disk_entry(c) == 0,
                    2,
                    old(self).scan_end(),
                ) && (final(self).alloc_bitmap is Some <==> old(self).bpb.total_clus
                    <= BITMAP_MAX_CLUSTERS) && (final(self).alloc_bitmap matches Some(b)
                        ==> old(self).bitmap_matches(b, old(self).scan_end()))
                        && final(self).same_rest(
                    (Fat32SuperBlock { alloc_bitmap: final(self).alloc_bitmap, ..*old(self) }),
                ),
                Err(e) => e == VfsError::IOError && final(self).same_rest(*old(self))
                    && final(self).faults() > old(self).faults(),
            },
    {
        let ghost o = *self;
        let fat_idx: u8 = self.bpb.active_fat_idx();
        let first_lba: u64 = self.bpb.fat_sector_lba(fat_idx, 0);
        proof {
            self.lemma_active_bound();
        }
        let nsec: u32 = self.bpb.fat_sz32;
        let total_clus: u32 = self.bpb.total_clus;
        let mut count: u32 = 0;
        let mut bitmap: Option<AllocBitmap> = if total_clus <= BITMAP_MAX_CLUSTERS {
            Some(AllocBitmap::new(total_clus as usize))
        } else {
            None
        };
        let ghost free = |c: int| o.disk_entry(c) == 0;
        let mut done: u32 = 0;
        while done < nsec
            invariant
                o == *old(self),
                done <= nsec,
                nsec == o.bpb.fat_sz32,
                total_clus == o.bpb.total_clus,
                first_lba == o.bpb.active_lba(),
                first_lba <= 0xFFFF + 15 * 0xFFFF_FFFF,
                self.inv(),
                self.same_rest(o),
                self.fat_cache == o.fat_cache,
                self.device.disk() == o.device.disk(),
                free == (|c: int| o.disk_entry(c) == 0),
                count == count_where(free, 2, upto(o, done * 128)),
                bitmap is Some <==> total_clus <= BITMAP_MAX_CLUSTERS,
                bitmap matches Some(b) ==> o.bitmap_matches(b, upto(o, done * 128)),
            decreases nsec - done,
        {
            let rest: u32 = nsec - done;
            let chunk: u32 = if rest < SCAN_CHUNK {
                rest
            } else {
                SCAN_CHUNK
            };
            let buf: Vec<u8> = match read_sectors(
                &mut self.device,
                first_lba + done as u64,
                chunk,
            ) {
                Ok(v) => v,
                Err(e) => return Err(e),
            };
            let mut i: u32 = 0;
            while i < chunk * 128
                invariant
                    o.inv(),
                    i <= chunk * 128,
                    chunk <= SCAN_CHUNK,
                    done + chunk <= nsec,
                    nsec == o.bpb.fat_sz32,
                    total_clus == o.bpb.total_clus,
                    first_lba == o.bpb.active_lba(),
                    buf@ == io::disk_range(
                        o.device.disk(),
                        (first_lba + done) * 512,
                        chunk * 512,
                    ),
                    free == (|c: int| o.disk_entry(c) == 0),
                    count == count_where(free, 2, upto(o, done * 128 + i)),
                    bitmap is Some <==> total_clus <= BITMAP_MAX_CLUSTERS,
                    bitmap matches Some(b) ==> o.bitmap_matches(b, upto(o, done * 128 + i)),
                decreases chunk * 128 - i,
            {
                let entry_idx: u64 = done as u64 * 128 + i as u64;
                let ghost c = entry_idx as int;
                if entry_idx >= 2 && entry_idx < 2 + total_clus as u64 {
                    let off: usize = i as usize * 4;
                    let val: u32 = read_le_u32(buf.as_slice(), off) % ENTRY_MODULUS;
                    proof {
                        let sec = cache::sector_at(o.device.disk(), o.bpb.active_lba() + c / 128);
                        let j = (c % 128) * 4;
                        assert(sec[j] == buf@[off as int]);
                        assert(sec[j + 1] == buf@[off + 1]);
                        assert(sec[j + 2] == buf@[off + 2]);
                        assert(sec[j + 3] == buf@[off + 3]);
                        assert(val == o.disk_entry(c));
                        assert(upto(o, c) == c);
                        assert(upto(o, c + 1) == c + 1);
                        lemma_count_bound(free, 2, c);
                        assert(free(c) == (o.disk_entry(c) == 0));
                    }
                    if val == FREE_CLUSTER {
                        count = count + 1;
                    } else {
                        match &mut bitmap {
                            Some(b) => {
                                b.set((entry_idx - 2) as usize);
                            },
                            None => {},
                        }
                    }
                }
                i = i + 1;
            }
            done = done + chunk;
        }
        self.alloc_bitmap = bitmap;
        Ok(count)
    }

    /// Writes the count of free clusters and the hint to the information sector, where
    /// the volume has one.
    pub fn write_fsinfo(&mut self) -> (r: Result<(), VfsError>)
        requires
            old(self).inv(),
        ensures
            final(self).inv(),
            final(self).wrote_only(*old(self), old(self).bpb.fsinfo_sec as int, 1),
            old(self).sound() ==> final(self).sound() && final(self).same_table(*old(self)),
            old(self).bpb.fsinfo_sec == 0 || old(self).bpb.fsinfo_sec == 0xFFFF ==> r is Ok
                && *final(self) == *old(self),
            match r {
                Ok(_) => old(self).bpb.fsinfo_sec == 0 || old(self).bpb.fsinfo_sec == 0xFFFF
                    || cache::sector_at(final(self).device.disk(), old(self).bpb.fsinfo_sec as int)
                    == fsinfo_of(
                    cache::sector_at(old(self).device.disk(), old(self).bpb.fsinfo_sec as int),
                    old(self).free_clus_count as int,
                    old(self).next_alloc_hint as int,
                ),
                Err(e) => e == VfsError::IOError && final(self).faults() > old(self).faults(),
            },
    {
        proof {
            reveal(Fat32SuperBlock::entry);
        }
        if !self.bpb.fsinfo_is_valid() {
            return Ok(());
        }
        let sec: u64 = self.bpb.fsinfo_sec as u64;
        let ghost o = *self;
        let mut buf: Vec<u8> = match read_sectors(&mut self.device, sec, 1) {
            Ok(v) => v,
            Err(e) => return Err(e),
        };
        put_le_u32(buf.as_mut_slice(), 0, FSINFO_LEAD_SIG);
        put_le_u32(buf.as_mut_slice(), 484, FSINFO_STRUCT_SIG);
        put_le_u32(buf.as_mut_slice(), 488, self.free_clus_count);
        put_le_u32(buf.as_mut_slice(), 492, self.next_alloc_hint);
        put_le_u32(buf.as_mut_slice(), 508, FSINFO_TRAIL_SIG);
        let ghost m = *self;
        let r = write_sectors(&mut self.device, sec, 1, buf.as_slice());
        proof {
            if o.sound() {
                self.lemma_wrote_outside(o, sec as int, 1);
            }
            if r is Ok {
                cache::lemma_sector_written(m.device.disk(), sec as int, buf@, 1, 0);
                assert(buf@.subrange(0, 512) =~= buf@);
            }
        }
        r
    }

    /// Marks the volume as in use, in sector 0, unless that was done.
    pub fn set_volume_dirty_flag(&mut self) -> (r: Result<(), VfsError>)
        requires
            old(self).inv(),
        ensures
            final(self).inv(),
            final(self).flag_written(*old(self)),
            match r {
                Ok(_) => final(self).volume_dirty && (old(self).volume_dirty ==> *final(self)
                    == *old(self)) && (!old(self).volume_dirty ==> cache::sector_at(
                    final(self).device.disk(),
                    0,
                ) == with_dirty_bit(cache::sector_at(old(self).device.disk(), 0), true)),
                Err(e) => e == VfsError::IOError && final(self).volume_dirty
                    == old(self).volume_dirty && final(self).faults() > old(self).faults(),
            },
    {
        if self.volume_dirty {
            proof {
                reveal(Fat32SuperBlock::entry);
            }
            return Ok(());
        }
        match self.write_dirty_bit(true) {
            Ok(_) => {},
            Err(e) => return Err(e),
        }
        let ghost m = *self;
        self.volume_dirty = true;
        proof {
            self.lemma_same_source(m);
        }
        Ok(())
    }

    /// Marks the volume as no longer in use, in sector 0, where it is marked.
    pub fn clear_volume_dirty_flag(&mut self) -> (r: Result<(), VfsError>)
        requires
            old(self).inv(),
        ensures
            final(self).inv(),
            final(self).flag_written(*old(self)),
            match r {
                Ok(_) => !final(self).volume_dirty && (!old(self).volume_dirty ==> *final(self)
                    == *old(self)) && (old(self).volume_dirty ==> cache::sector_at(
                    final(self).device.disk(),
                    0,
                ) == with_dirty_bit(cache::sector_at(old(self).device.disk(), 0), false)),
                Err(e) => e == VfsError::IOError && final(self).volume_dirty
                    == old(self).volume_dirty && final(self).faults() > old(self).faults(),
            },
    {
        if !self.volume_dirty {
            proof {
                reveal(Fat32SuperBlock::entry);
            }
            return Ok(());
        }
        match self.write_dirty_bit(false) {
            Ok(_) => {},
            Err(e) => return Err(e),
        }
        let ghost m = *self;
        self.volume_dirty = false;
        proof {
            self.lemma_same_source(m);
        }
        Ok(())
    }

    /// From `o`, at most sector 0 and the flag in memory have changed.
    pub open spec fn flag_written(self, o: Self) -> bool {
        &&& self.wrote_only(
            (Fat32SuperBlock { volume_dirty: self.volume_dirty, ..o }),
            0,
            1,
        )
        &&& o.sound() ==> self.sound() && self.same_table(o)
    }

    fn write_dirty_bit(&mut self, dirty: bool) -> (r: Result<(), VfsError>)
        requires
            old(self).inv(),
        ensures
            final(self).inv(),
            final(self).wrote_only(*old(self), 0, 1),
            old(self).sound() ==> final(self).sound() && final(self).same_table(*old(self)),
            match r {
                Ok(_) => cache::sector_at(final(self).device.disk(), 0) == with_dirty_bit(
                    cache::sector_at(old(self).device.disk(), 0),
                    dirty,
                ),
                Err(e) => e == VfsError::IOError && final(self).faults() > old(self).faults(),
            },
    {
        proof {
            reveal(Fat32SuperBlock::entry);
        }
        let ghost o = *self;
        let mut sector: Vec<u8> = match read_sectors(&mut self.device, 0, 1) {
            Ok(v) => v,
            Err(e) => return Err(e),
        };
        let b: u8 = sector[0x41];
        sector[0x41] = if dirty {
            b - b % 2 + 1
        } else {
            b - b % 2
        };
        let ghost m = *self;
        let r = write_sectors(&mut self.device, 0, 1, sector.as_slice());
        proof {
            if o.sound() {
                self.lemma_wrote_outside(o, 0, 1);
            }
            if r is Ok {
                cache::lemma_sector_written(m.device.disk(), 0, sector@, 1, 0);
                assert(sector@.subrange(0, 512) =~= sector@);
            }
        }
        r
    }

    /// From `m`, the information sector, where there is one, was brought up to date.
    pub open spec fn info_written(self, m: Self) -> bool {
        let sec = m.bpb.fsinfo_sec as int;
        &&& self.inv()
        &&& self.wrote_only(m, sec, 1)
        &&& if sec == 0 || sec == 0xFFFF {
            self == m
        } else {
            cache::sector_at(self.device.disk(), sec) == fsinfo_of(
                cache::sector_at(m.device.disk(), sec),
                m.free_clus_count as int,
                m.next_alloc_hint as int,
            )
        }
    }

    /// From `o`, all that was still to be written of the table was, to every copy of it, and
    /// then the information sector was brought up to date.
    pub open spec fn synced(self, o: Self) -> bool {
        exists|m: Self|
            #[trigger] m.quiet(o) && m.written_back() && m.wrote_copies(o) && self.info_written(
                m,
            )
    }

    /// Writes the changed sectors of the table and the information sector. The volume
    /// stays marked as in use.
    pub fn sync_all(&mut self) -> (r: Result<(), VfsError>)
        requires
            old(self).inv(),
        ensures
            final(self).inv(),
            final(self).same_rest(*old(self)),
            old(self).sound() ==> final(self).sound() && final(self).same_table(*old(self)),
            match r {
                Ok(_) => final(self).written_back() && final(self).synced(*old(self)),
                Err(e) => e == VfsError::IOError && final(self).faults() > old(self).faults(),
            },
    {
        let ghost o = *self;
        match self.flush_fat_cache() {
            Ok(_) => {},
            Err(e) => return Err(e),
        }
        let ghost m = *self;
        let r = self.write_fsinfo();
        proof {
            assert(m.quiet(o));
            if o.sound() {
                assert forall|x: int| o.has_entry(x) implies #[trigger] self.entry(x) == o.entry(
                    x,
                ) by {
                    assert(m.has_entry(x));
                    assert(m.entry(x) == o.entry(x));
                }
            }
        }
        r
    }

    /// Takes the volume out of use: flushes, and clears the mark.
    pub fn shutdown(&mut self) -> (r: Result<(), VfsError>)
        requires
            old(self).inv(),
        ensures
            final(self).inv(),
            old(self).sound() ==> final(self).sound() && final(self).same_table(*old(self)),
            match r {
                Ok(_) => final(self).written_back() && !final(self).volume_dirty && exists|y: Self|
                    #[trigger] y.synced(*old(self)) && y.volume_dirty == old(self).volume_dirty
                        && final(self).flag_written(y) && (if y.volume_dirty {
                        cache::sector_at(final(self).device.disk(), 0) == with_dirty_bit(
                            cache::sector_at(y.device.disk(), 0),
                            false,
                        )
                    } else {
                        *final(self) == y
                    }),
                Err(e) => e == VfsError::IOError && final(self).faults() > old(self).faults(),
            },
    {
        let ghost o = *self;
        match self.sync_all() {
            Ok(_) => {},
            Err(e) => return Err(e),
        }
        let ghost m = *self;
        let r = self.clear_volume_dirty_flag();
        proof {
            assert(m.synced(o));
            if o.sound() {
                assert forall|x: int| o.has_entry(x) implies #[trigger] self.entry(x) == o.entry(
                    x,
                ) by {
                    assert(m.has_entry(x));
                    assert(m.entry(x) == o.entry(x));
                }
            }
        }
        r
    }

    /// The size of the volume and of what is free of it, in clusters.
    pub fn statfs(&self) -> (r: StatFs)
        ensures
            r == (StatFs {
                block_size: self.bpb.byts_per_clus,
                total_blocks: self.bpb.total_clus as u64,
                free_blocks: self.free_clus_count as u64,
            }),
    {
        StatFs {
            block_size: self.bpb.byts_per_clus,
            total_blocks: self.bpb.total_clus as u64,
            free_blocks: self.free_clus_count as u64,
        }
    }
}

/// The boot sector `s` with the mark set or cleared.
pub open spec fn with_dirty_bit(s: Seq<u8>, dirty: bool) -> Seq<u8> {
    let b = s[0x41] as int;
    s.update(
        0x41,
        if dirty {
            (b - b % 2 + 1) as u8
        } else {
            (b - b % 2) as u8
        },
    )
}

/// Clearing the mark undoes setting it on a volume that was not marked.
pub proof fn law_dirty_bit_undone(s: Seq<u8>)
    requires
        s.len() == 512,
        s[0x41] % 2 == 0,
    ensures
        with_dirty_bit(with_dirty_bit(s, true), false) == s,
{
    assert(with_dirty_bit(with_dirty_bit(s, true), false) =~= s);
}

/// The cluster up to which `n` entries of the table reach, from 2 on and within the volume.
pub open spec fn upto<D: BlockDevice>(o: Fat32SuperBlock<D>, n: int) -> int {
    if n < 2 {
        2
    } else if n > 2 + o.bpb.total_clus {
        2 + o.bpb.total_clus
    } else {
        n
    }
}

} // verus!
