//! The write-back cache of file allocation table sectors.

use vstd::prelude::*;

use crate::blockdriver::traits;
use crate::blockdriver::traits::BlockDevice;
use crate::bytes::copy_at;
use crate::collections;
use crate::collections::{sort_numbers, LbaSet, SectorMap};
use crate::fat32::bpb::Bpb;
use crate::fat32::io;
use crate::fat32::io::{read_sectors, write_sectors, SECTOR_SIZE};
use crate::vfs::VfsError;

verus! {

pub const MAX_FAT_CACHE_ENTRIES: usize = 4096;

/// Most sectors that one request of a flush carries.
pub const FLUSH_MAX_SECTORS: u32 = 504;

/// No table of a volume reaches this sector.
pub const LBA_LIMIT: u64 = 0x100_0000_0000;

/// The bytes of sector `lba`.
pub open spec fn sector_at(d: spec_fn(int) -> u8, lba: int) -> Seq<u8> {
    io::disk_range(d, lba * 512, 512)
}

/// `a` holds some of the sectors of `b`.
pub open spec fn within(a: Map<u64, Seq<u8>>, b: Map<u64, Seq<u8>>) -> bool {
    forall|lba: u64| #[trigger] a.contains_key(lba) ==> b.contains_key(lba) && a[lba] == b[lba]
}

/// `bytes` as an array of one sector.
pub fn to_sector(bytes: &Vec<u8>) -> (r: [u8; 512])
    requires
        bytes@.len() == 512,
    ensures
        r@ == bytes@,
{
    let mut a: [u8; 512] = [0u8; 512];
    let mut i: usize = 0;
    while i < 512
        invariant
            i <= 512,
            bytes@.len() == 512,
            forall|k: int| 0 <= k < i ==> a@[k] == bytes@[k],
        decreases 512 - i,
    {
        a[i] = bytes[i];
        i = i + 1;
    }
    assert(a@ =~= bytes@);
    a
}

/// The sectors of the table that are in memory. Sectors that were changed are
/// dirty until they are written back.
pub struct FatCache {
    pub sectors: SectorMap,
    pub dirty: LbaSet,
    /// The sectors in memory, for eviction: a hand sweeps over them.
    pub clock: Vec<u64>,
    pub clock_hand: usize,
    /// The first sector of the first table.
    pub fat0_lba: u64,
    /// The first sector of the table in use.
    pub active_lba: u64,
    pub fat_sz: u32,
    pub num_fats: u8,
    /// Changes go to every table, not only to the one in use.
    pub mirrored: bool,
}

impl FatCache {
    #[verifier::inline]
    pub open spec fn contents(self) -> Map<u64, Seq<u8>> {
        collections::sector_map(self.sectors)
    }

    #[verifier::inline]
    pub open spec fn dirty_set(self) -> Set<u64> {
        collections::lba_set(self.dirty)
    }

    pub open spec fn inv(self) -> bool {
        &&& forall|lba: u64| #[trigger]
            self.contents().contains_key(lba) ==> self.contents()[lba].len() == 512
                && self.fat0_lba <= lba < LBA_LIMIT
        &&& forall|lba: u64| #[trigger]
            self.dirty_set().contains(lba) ==> self.contents().contains_key(lba)
        &&& self.clock@.no_duplicates()
        &&& forall|lba: u64| #[trigger]
            self.clock@.contains(lba) <==> self.contents().contains_key(lba)
        &&& self.layout_ok()
    }

    pub open spec fn layout_ok(self) -> bool {
        &&& self.fat_sz >= 1
        &&& self.fat0_lba <= 0xFFFF
        &&& self.fat0_lba <= self.active_lba
        &&& self.mirrored ==> self.active_lba == self.fat0_lba
    }

    pub open spec fn same_layout(self, o: FatCache) -> bool {
        &&& self.fat0_lba == o.fat0_lba
        &&& self.active_lba == o.active_lba
        &&& self.fat_sz == o.fat_sz
        &&& self.num_fats == o.num_fats
        &&& self.mirrored == o.mirrored
    }

    /// `lba` belongs to the table in use.
    pub open spec fn in_table(self, lba: int) -> bool {
        self.active_lba <= lba < self.active_lba + self.fat_sz
    }

    /// `lba` belongs to one of the copies that follow the first table.
    pub open spec fn in_mirror(self, lba: int) -> bool {
        self.mirrored && self.fat0_lba + self.fat_sz <= lba < self.fat0_lba + self.num_fats
            * self.fat_sz
    }

    /// The sector as this cache sees it over the contents `d` of the device.
    pub open spec fn logical(self, d: spec_fn(int) -> u8, lba: u64) -> Seq<u8> {
        if self.contents().contains_key(lba) {
            self.contents()[lba]
        } else {
            sector_at(d, lba as int)
        }
    }

    /// The sectors of the table in use that are not dirty are as on the device.
    pub open spec fn coherent(self, d: spec_fn(int) -> u8) -> bool {
        forall|lba: u64| #[trigger]
            self.contents().contains_key(lba) && self.in_table(lba as int)
                && !self.dirty_set().contains(lba) ==> self.contents()[lba] == sector_at(
                d,
                lba as int,
            )
    }

    /// Every dirty sector belongs to the table in use.
    pub open spec fn dirty_in_table(self) -> bool {
        forall|lba: u64| #[trigger] self.dirty_set().contains(lba) ==> self.in_table(lba as int)
    }

    /// From `self` over `d` to `next` over `nd` the table kept its contents, only
    /// sectors that were dirty, or copies, were written, and none became dirty.
    pub open spec fn keeps(
        self,
        d: spec_fn(int) -> u8,
        next: FatCache,
        nd: spec_fn(int) -> u8,
    ) -> bool {
        &&& next.same_layout(self)
        &&& self.coherent(d) ==> next.coherent(nd)
        &&& self.coherent(d) ==> forall|lba: u64|
            self.in_table(lba as int) ==> #[trigger] next.logical(nd, lba) == self.logical(d, lba)
        &&& forall|lba: u64| #[trigger]
            next.dirty_set().contains(lba) ==> self.dirty_set().contains(lba)
        &&& self.touches_only_dirty(d, nd)
    }

    pub open spec fn touches_only_dirty(
        self,
        d: spec_fn(int) -> u8,
        nd: spec_fn(int) -> u8,
    ) -> bool {
        forall|lba: u64|
            !self.dirty_set().contains(lba) && !self.in_mirror(lba as int) ==> #[trigger] sector_at(
                nd,
                lba as int,
            ) == sector_at(d, lba as int)
    }

    proof fn lemma_keeps_trans(
        self,
        d: spec_fn(int) -> u8,
        mid: FatCache,
        md: spec_fn(int) -> u8,
        next: FatCache,
        nd: spec_fn(int) -> u8,
    )
        requires
            self.keeps(d, mid, md),
            mid.keeps(md, next, nd),
        ensures
            self.keeps(d, next, nd),
    {
        assert forall|lba: u64|
            !self.dirty_set().contains(lba) && !self.in_mirror(
                lba as int,
            ) implies #[trigger] sector_at(nd, lba as int) == sector_at(d, lba as int) by {
            assert(sector_at(md, lba as int) == sector_at(d, lba as int));
            assert(!mid.dirty_set().contains(lba));
        }
        if self.coherent(d) {
            assert forall|lba: u64| self.in_table(lba as int) implies #[trigger] next.logical(
                nd,
                lba,
            ) == self.logical(d, lba) by {
                assert(mid.logical(md, lba) == self.logical(d, lba));
            }
        }
    }

    pub fn new(bpb: &Bpb) -> (r: Self)
        requires
            bpb.wf(),
        ensures
            r.inv(),
            r.contents() == (Map::<u64, Seq<u8>>::empty()),
            r.dirty_set() == Set::<u64>::empty(),
            r.fat0_lba == bpb.rsvd_sec_cnt,
            r.active_lba == bpb.active_lba(),
            r.fat_sz == bpb.fat_sz32,
            r.num_fats == bpb.num_fats,
            r.mirrored == (bpb.active_fat < 0x80),
    {
        let idx: u8 = bpb.active_fat_idx();
        assert(idx * bpb.fat_sz32 >= 0) by (nonlinear_arith)
            requires
                idx >= 0,
                bpb.fat_sz32 >= 0,
        ;
        FatCache {
            sectors: SectorMap::new(),
            dirty: LbaSet::new(),
            clock: Vec::new(),
            clock_hand: 0,
            fat0_lba: bpb.fat_sector_lba(0, 0),
            active_lba: bpb.fat_sector_lba(idx, 0),
            fat_sz: bpb.fat_sz32,
            num_fats: bpb.num_fats,
            mirrored: bpb.active_fat < 0x80,
        }
    }

    /// Dropping sectors that are not dirty keeps the table.
    proof fn lemma_drop_clean(self, next: FatCache, d: spec_fn(int) -> u8)
        requires
            self.inv(),
            next.inv(),
            next.same_layout(self),
            next.dirty_set() == self.dirty_set(),
            within(next.contents(), self.contents()),
        ensures
            self.keeps(d, next, d),
    {
        if self.coherent(d) {
            assert forall|lba: u64| self.in_table(lba as int) implies #[trigger] next.logical(
                d,
                lba,
            ) == self.logical(d, lba) by {
                if self.contents().contains_key(lba) && !next.contents().contains_key(lba) {
                    assert(!next.dirty_set().contains(lba));
                }
                if next.contents().contains_key(lba) {
                    assert(self.contents().contains_key(lba));
                }
            }
            assert forall|lba: u64| #[trigger]
                next.contents().contains_key(lba) && next.in_table(lba as int)
                    && !next.dirty_set().contains(lba) implies next.contents()[lba] == sector_at(
                d,
                lba as int,
            ) by {
                assert(self.contents().contains_key(lba));
            }
        }
    }

    /// The clock holds as many sectors as the map.
    proof fn lemma_clock_len(self)
        requires
            self.inv(),
        ensures
            self.contents().dom().len() == self.clock@.len(),
    {
        self.clock@.unique_seq_to_set();
        assert(self.clock@.to_set() =~= self.contents().dom());
    }

    /// Every sector in memory is dirty.
    pub open spec fn all_dirty(self) -> bool {
        forall|lba: u64| #[trigger]
            self.contents().contains_key(lba) ==> self.dirty_set().contains(lba)
    }

    /// Drops sectors that are not dirty, from the clock hand on, until at most
    /// `target` are left or a whole round found none. Says whether at most `target`
    /// are left. A round that starts with the first sector misses none.
    fn sweep_clean(&mut self, target: usize) -> (r: bool)
        requires
            old(self).inv(),
        ensures
            final(self).inv(),
            final(self).same_layout(*old(self)),
            final(self).dirty_set() == old(self).dirty_set(),
            within(final(self).contents(), old(self).contents()),
            final(self).clock@.len() <= old(self).clock@.len(),
            r == (final(self).clock@.len() <= target),
            old(self).clock@.len() >= target ==> final(self).clock@.len() >= target,
            old(self).clock_hand == 0 && !r ==> final(self).all_dirty(),
    {
        let mut swept_dirty: usize = 0;
        proof {
            self.lemma_clock_len();
        }
        while self.sectors.len() > target && self.clock.len() > 0
            invariant
                self.inv(),
                self.same_layout(*old(self)),
                self.dirty_set() == old(self).dirty_set(),
                within(self.contents(), old(self).contents()),
                self.clock@.len() <= old(self).clock@.len(),
                self.contents().dom().len() == self.clock@.len(),
                swept_dirty <= self.clock@.len() + 1,
                swept_dirty <= old(self).clock@.len(),
                old(self).clock@.len() >= target ==> self.clock@.len() >= target,
                old(self).clock_hand == 0 ==> self.clock_hand == swept_dirty && forall|k: int|
                    0 <= k < swept_dirty && k < self.clock@.len() ==> self.dirty_set().contains(
                        #[trigger] self.clock@[k],
                    ),
            ensures
                self.clock@.len() <= target || self.clock@.len() <= swept_dirty,
            decreases 2 * self.clock@.len() + old(self).clock@.len() - swept_dirty,
        {
            if swept_dirty >= self.clock.len() {
                break;
            }
            if self.clock_hand >= self.clock.len() {
                self.clock_hand = 0;
            }
            let lba: u64 = self.clock[self.clock_hand];
            let ghost before = *self;
            assert(self.clock@.contains(lba));
            if !self.dirty.contains(lba) {
                self.sectors.remove(lba);
                self.clock.swap_remove(self.clock_hand);
                proof {
                    lemma_swap_removed(before.clock@, self.clock@, before.clock_hand as int);
                    assert forall|x: u64| #[trigger] self.clock@.contains(
                        x,
                    ) <==> self.contents().contains_key(x) by {
                        assert(before.clock@.contains(x) <==> before.contents().contains_key(x));
                    }
                    self.lemma_clock_len();
                }
            } else {
                self.clock_hand = self.clock_hand + 1;
                swept_dirty = swept_dirty + 1;
            }
        }
        proof {
            self.lemma_clock_len();
            if old(self).clock_hand == 0 && self.clock@.len() > target {
                assert forall|lba: u64| #[trigger]
                    self.contents().contains_key(lba) implies self.dirty_set().contains(lba) by {
                    assert(self.clock@.contains(lba));
                    let k = choose|k: int| 0 <= k < self.clock@.len() && self.clock@[k] == lba;
                    assert(self.dirty_set().contains(self.clock@[k]));
                }
            }
        }
        self.sectors.len() <= target
    }

    /// The copy of sector `lba` in table `k`.
    pub open spec fn mirror_lba(self, k: int, lba: int) -> int {
        self.fat0_lba + k * self.fat_sz + (lba - self.fat0_lba) % (self.fat_sz as int)
    }

    /// A copy in table `fat_num` lies beyond the table in use, within the copies or
    /// past them.
    proof fn lemma_mirror_range(self, k: int, lba: int)
        requires
            self.layout_ok(),
            1 <= k < self.num_fats,
            self.fat0_lba <= lba,
        ensures
            self.fat0_lba + self.fat_sz <= self.mirror_lba(k, lba) < self.fat0_lba + self.num_fats
                * self.fat_sz,
            self.mirror_lba(k, lba) < LBA_LIMIT,
            k * self.fat_sz <= 0xFF * 0xFFFF_FFFF,
            lba < self.fat0_lba + self.fat_sz ==> self.mirror_lba(k, lba) == lba + k * self.fat_sz,
    {
        let m = (lba - self.fat0_lba) % (self.fat_sz as int);
        assert(0 <= m < self.fat_sz);
        assert(self.fat_sz <= k * self.fat_sz && k * self.fat_sz + m < self.num_fats * self.fat_sz
            && self.num_fats * self.fat_sz <= 0xFF * 0xFFFF_FFFF && k * self.fat_sz <= 0xFF
            * 0xFFFF_FFFF) by (nonlinear_arith)
            requires
                1 <= k,
                k + 1 <= self.num_fats <= 0xFF,
                0 <= m < self.fat_sz <= 0xFFFF_FFFF,
        ;
        if lba < self.fat0_lba + self.fat_sz {
            vstd::arithmetic::div_mod::lemma_small_mod(
                (lba - self.fat0_lba) as nat,
                self.fat_sz as nat,
            );
        }
    }

    /// The copies of a sector in two tables do not meet.
    proof fn lemma_copies_apart(self, k1: int, k2: int, lba: int)
        requires
            self.fat_sz >= 1,
            k1 < k2,
        ensures
            self.mirror_lba(k1, lba) < self.mirror_lba(k2, lba),
    {
        assert(k1 * self.fat_sz < k2 * self.fat_sz) by (nonlinear_arith)
            requires
                k1 < k2,
                self.fat_sz >= 1,
        ;
    }

    /// Writes one dirty sector and its copies back and drops it from the cache. A
    /// failed write leaves the sector cached and dirty for a later flush. Says
    /// whether the sector was dropped.
    fn writeback_and_drop<D: BlockDevice>(&mut self, device: &mut D, lba: u64) -> (r: bool)
        requires
            old(self).inv(),
            old(device).sector_len() == SECTOR_SIZE,
            old(self).contents().contains_key(lba) ==> old(self).dirty_set().contains(lba),
        ensures
            final(self).inv(),
            io::same_device(*final(device), *old(device)),
            old(self).keeps(old(device).disk(), *final(self), final(device).disk()),
            r == (old(self).contents().contains_key(lba) && traits::faults(*final(device))
                == traits::faults(*old(device))),
            !old(self).contents().contains_key(lba) ==> final(device).disk() == old(device).disk()
                && final(device).answers() == old(device).answers(),
            r && !old(self).in_mirror(lba as int) ==> sector_at(final(device).disk(), lba as int)
                == old(self).contents()[lba],
            r && old(self).mirrored ==> forall|k: int|
                1 <= k < old(self).num_fats ==> sector_at(
                    final(device).disk(),
                    #[trigger] old(self).mirror_lba(k, lba as int),
                ) == old(self).contents()[lba],
            r ==> final(self).contents() == old(self).contents().remove(lba),
            r ==> final(self).dirty_set() == old(self).dirty_set().remove(lba),
            r ==> final(self).clock@.len() == old(self).clock@.len() - 1,
            !r ==> final(self).contents() == old(self).contents(),
            !r ==> final(self).dirty_set() == old(self).dirty_set(),
            !r ==> final(self).clock@ == old(self).clock@,
    {
        let data: [u8; 512] = match self.sectors.get(lba) {
            Some(d) => d,
            None => {
                return false;
            },
        };
        assert(self.contents().contains_key(lba));
        let ghost d0 = device.disk();
        if write_sectors(device, lba, 1, &data).is_err() {
            proof {
                assert forall|l: u64|
                    !self.dirty_set().contains(l) implies #[trigger] sector_at(
                    device.disk(),
                    l as int,
                ) == sector_at(d0, l as int) by {
                    lemma_sector_outside(d0, device.disk(), lba as int, 1, l as int);
                }
                assert(self.keeps(d0, *self, device.disk()));
            }
            return false;
        }
        let ghost d1 = device.disk();
        proof {
            assert forall|l: u64| l != lba implies #[trigger] sector_at(d1, l as int) == sector_at(
                d0,
                l as int,
            ) by {
                lemma_sector_outside(d0, d1, lba as int, 1, l as int);
            }
            lemma_sector_written(d0, lba as int, data@, 1, 0);
            assert(data@.subrange(0, 512) =~= data@);
            assert(sector_at(d1, lba as int) == data@);
        }
        if self.mirrored {
            let local_idx: u64 = (lba - self.fat0_lba) % (self.fat_sz as u64);
            let mut fat_num: u8 = 1;
            while fat_num < self.num_fats
                invariant
                    *self == *old(self),
                    self.inv(),
                    self.mirrored,
                    self.contents().contains_key(lba),
                    self.dirty_set().contains(lba),
                    device.sector_len() == SECTOR_SIZE,
                    io::same_device(*device, *old(device)),
                    1 <= fat_num,
                    local_idx == (lba - self.fat0_lba) % (self.fat_sz as int),
                    d0 == old(device).disk(),
                    forall|l: u64|
                        l != lba && !self.in_mirror(l as int) ==> #[trigger] sector_at(
                            device.disk(),
                            l as int,
                        ) == sector_at(d0, l as int),
                    !self.in_mirror(lba as int) ==> sector_at(device.disk(), lba as int) == data@,
                    data@ == self.contents()[lba],
                    traits::faults(*device) == traits::faults(*old(device)),
                    forall|k: int|
                        1 <= k < fat_num && k < self.num_fats ==> sector_at(
                            device.disk(),
                            #[trigger] self.mirror_lba(k, lba as int),
                        ) == data@,
                decreases self.num_fats - fat_num,
            {
                proof {
                    self.lemma_mirror_range(fat_num as int, lba as int);
                }
                let mirror_lba: u64 = self.fat0_lba + (fat_num as u64) * (self.fat_sz as u64)
                    + local_idx;
                let ghost dm = device.disk();
                let failed = write_sectors(device, mirror_lba, 1, &data).is_err();
                proof {
                    assert forall|l: u64|
                        !self.in_mirror(l as int) implies #[trigger] sector_at(
                        device.disk(),
                        l as int,
                    ) == sector_at(dm, l as int) by {
                        lemma_sector_outside(dm, device.disk(), mirror_lba as int, 1, l as int);
                    }
                }
                if failed {
                    assert(self.keeps(d0, *self, device.disk()));
                    return false;
                }
                proof {
                    lemma_sector_written(dm, mirror_lba as int, data@, 1, 0);
                    assert(data@.subrange(0, 512) =~= data@);
                    assert forall|k: int|
                        1 <= k < fat_num + 1 && k < self.num_fats implies sector_at(
                        device.disk(),
                        #[trigger] self.mirror_lba(k, lba as int),
                    ) == data@ by {
                        if k < fat_num {
                            self.lemma_copies_apart(k, fat_num as int, lba as int);
                            lemma_sector_outside(
                                dm,
                                device.disk(),
                                mirror_lba as int,
                                1,
                                self.mirror_lba(k, lba as int),
                            );
                        }
                    }
                }
                fat_num = fat_num + 1;
            }
        }
        self.dirty.remove(lba);
        self.sectors.remove(lba);
        let mut pos: usize = 0;
        assert(old(self).clock@.contains(lba));
        while pos < self.clock.len() && self.clock[pos] != lba
            invariant
                pos <= self.clock@.len(),
                self.clock@ == old(self).clock@,
                forall|k: int| 0 <= k < pos ==> self.clock@[k] != lba,
            decreases self.clock@.len() - pos,
        {
            pos = pos + 1;
        }
        if pos < self.clock.len() {
            self.clock.swap_remove(pos);
            proof {
                lemma_swap_removed(old(self).clock@, self.clock@, pos as int);
                assert forall|x: u64| #[trigger] self.clock@.contains(
                    x,
                ) <==> self.contents().contains_key(x) by {
                    assert(old(self).clock@.contains(x) <==> old(self).contents().contains_key(x));
                }
            }
        } else {
            assert(false) by {
                let k = choose|k: int|
                    0 <= k < old(self).clock@.len() && old(self).clock@[k] == lba;
                assert(self.clock@[k] != lba);
            }
        }
        proof {
            let d = device.disk();
            if old(self).coherent(d0) {
                assert forall|l: u64| old(self).in_table(l as int) implies #[trigger] self.logical(
                    d,
                    l,
                ) == old(self).logical(d0, l) by {
                    assert(!old(self).in_mirror(l as int));
                    if l != lba {
                        assert(sector_at(d, l as int) == sector_at(d0, l as int));
                    }
                }
                assert forall|l: u64| #[trigger]
                    self.contents().contains_key(l) && self.in_table(l as int)
                        && !self.dirty_set().contains(l) implies self.contents()[l] == sector_at(
                    d,
                    l as int,
                ) by {
                    assert(!old(self).in_mirror(l as int));
                    assert(old(self).contents().contains_key(l));
                    assert(sector_at(d, l as int) == sector_at(d0, l as int));
                }
            }
        }
        true
    }

    /// How many sectors stay in memory when room is made.
    pub open spec fn kept_sectors() -> int {
        MAX_FAT_CACHE_ENTRIES - MAX_FAT_CACHE_ENTRIES / 4
    }

    /// Makes room once the cache is full: drops sectors that are not dirty, and,
    /// where that is not enough, writes dirty ones back and drops those, until a quarter
    /// of the cache is free. Where writes fail, dirty sectors may stay beyond that.
    fn maybe_evict<D: BlockDevice>(&mut self, device: &mut D)
        requires
            old(self).inv(),
            old(device).sector_len() == SECTOR_SIZE,
        ensures
            final(self).inv(),
            io::same_device(*final(device), *old(device)),
            old(self).keeps(old(device).disk(), *final(self), final(device).disk()),
            within(final(self).contents(), old(self).contents()),
            if old(self).clock@.len() < MAX_FAT_CACHE_ENTRIES {
                &&& *final(self) == *old(self)
                &&& final(device).disk() == old(device).disk()
                &&& final(device).answers() == old(device).answers()
            } else {
                ||| final(self).clock@.len() == Self::kept_sectors()
                ||| {
                    &&& final(self).clock@.len() > Self::kept_sectors()
                    &&& final(self).all_dirty()
                    &&& traits::faults(*final(device)) > traits::faults(*old(device))
                }
            },
    {
        proof {
            self.lemma_clock_len();
        }
        if self.sectors.len() < MAX_FAT_CACHE_ENTRIES {
            return;
        }
        let target: usize = MAX_FAT_CACHE_ENTRIES - MAX_FAT_CACHE_ENTRIES / 4;
        let ghost d0 = device.disk();
        let enough = self.sweep_clean(target);
        proof {
            old(self).lemma_drop_clean(*self, d0);
            self.lemma_clock_len();
        }
        if enough {
            return;
        }
        let need: usize = self.sectors.len().saturating_sub(target);
        let mut batch: Vec<u64> = Vec::new();
        let mut k: usize = 0;
        while k < self.clock.len() && batch.len() < need
            invariant
                k <= self.clock@.len(),
                self.clock@.no_duplicates(),
                batch@.len() <= need,
                batch@.no_duplicates(),
                forall|j: int|
                    0 <= j < batch@.len() ==> self.dirty_set().contains(#[trigger] batch@[j]),
                forall|x: u64| #[trigger] batch@.contains(x) ==> self.clock@.take(
                    k as int,
                ).contains(x),
                forall|j: int|
                    0 <= j < k && self.dirty_set().contains(#[trigger] self.clock@[j])
                        ==> batch@.contains(self.clock@[j]),
            decreases self.clock@.len() - k,
        {
            let lba: u64 = self.clock[k];
            let ghost was = batch@;
            if self.dirty.contains(lba) {
                assert(!was.contains(lba)) by {
                    if was.contains(lba) {
                        let j = choose|j: int|
                            0 <= j < k && #[trigger] self.clock@.take(k as int)[j] == lba;
                        assert(self.clock@[j] == self.clock@[k as int]);
                    }
                }
                batch.push(lba);
            }
            proof {
                assert forall|x: u64| #[trigger] batch@.contains(x) implies self.clock@.take(
                    k + 1,
                ).contains(x) by {
                    if was.contains(x) {
                        let j = choose|j: int|
                            0 <= j < k && #[trigger] self.clock@.take(k as int)[j] == x;
                        assert(self.clock@.take(k + 1)[j] == x);
                    } else {
                        assert(x == lba);
                        assert(self.clock@.take(k + 1)[k as int] == x);
                    }
                }
                assert forall|j: int|
                    0 <= j < k + 1 && self.dirty_set().contains(
                        #[trigger] self.clock@[j],
                    ) implies batch@.contains(self.clock@[j]) by {
                    if j < k {
                        let i = choose|i: int| 0 <= i < was.len() && was[i] == self.clock@[j];
                        assert(batch@[i] == self.clock@[j]);
                    } else {
                        assert(batch@[batch@.len() - 1] == lba);
                    }
                }
            }
            k = k + 1;
        }
        let ghost swept = *self;
        assert(batch@.len() == need || forall|x: u64| #[trigger]
            swept.dirty_set().contains(x) ==> batch@.contains(x)) by {
            if batch@.len() < need {
                assert forall|x: u64| #[trigger] swept.dirty_set().contains(
                    x,
                ) implies batch@.contains(x) by {
                    assert(swept.clock@.contains(x));
                    let j = choose|j: int| 0 <= j < swept.clock@.len() && swept.clock@[j] == x;
                    assert(batch@.contains(swept.clock@[j]));
                }
            }
        }
        let mut b: usize = 0;
        while b < batch.len()
            invariant
                self.inv(),
                device.sector_len() == SECTOR_SIZE,
                io::same_device(*device, *old(device)),
                d0 == old(device).disk(),
                old(self).keeps(d0, *self, device.disk()),
                within(self.contents(), old(self).contents()),
                b <= batch@.len(),
                batch@.no_duplicates(),
                forall|j: int| #![trigger batch@[j]]
                    b <= j < batch@.len() ==> self.dirty_set().contains(batch@[j]),
                forall|x: u64| #[trigger]
                    self.dirty_set().contains(x) ==> swept.dirty_set().contains(x),
                self.clock@.len() >= swept.clock@.len() - b,
                traits::faults(*device) == traits::faults(*old(device)) ==> self.clock@.len()
                    == swept.clock@.len() - b && forall|j: int|
                    0 <= j < b ==> !self.dirty_set().contains(#[trigger] batch@[j]),
            decreases batch@.len() - b,
        {
            let lba: u64 = batch[b];
            let ghost before = *self;
            let ghost db = device.disk();
            assert(self.dirty_set().contains(batch@[b as int]));
            let _dropped = self.writeback_and_drop(device, lba);
            proof {
                old(self).lemma_keeps_trans(d0, before, db, *self, device.disk());
            }
            b = b + 1;
        }
        let ghost written = *self;
        self.clock_hand = 0;
        let ghost before = *self;
        let ghost db = device.disk();
        assert(forall|l: u64| #[trigger] before.logical(db, l) == written.logical(db, l));
        let _enough = self.sweep_clean(target);
        proof {
            before.lemma_drop_clean(*self, db);
            old(self).lemma_keeps_trans(d0, before, db, *self, db);
            if self.clock@.len() > target && traits::faults(*device) == traits::faults(
                *old(device),
            ) {
                assert(self.clock@.contains(self.clock@[0]));
                assert(before.dirty_set().contains(self.clock@[0]));
                assert(batch@.contains(self.clock@[0]));
            }
        }
    }

    /// Makes sure that sector `lba` is in memory.
    fn load<D: BlockDevice>(&mut self, device: &mut D, lba: u64) -> (r: Result<(), VfsError>)
        requires
            old(self).inv(),
            old(device).sector_len() == SECTOR_SIZE,
            old(self).fat0_lba <= lba < LBA_LIMIT,
        ensures
            final(self).inv(),
            io::same_device(*final(device), *old(device)),
            old(self).keeps(old(device).disk(), *final(self), final(device).disk()),
            old(self).contents().contains_key(lba) ==> r is Ok && *final(self) == *old(self)
                && *final(device) == *old(device),
            match r {
                Ok(_) => final(self).contents().contains_key(lba) && final(self).contents()[lba]
                    == old(self).logical(old(device).disk(), lba),
                Err(e) => e == VfsError::IOError && *final(self) == *old(self)
                    && final(device).disk() == old(device).disk() && traits::faults(*final(device))
                    > traits::faults(*old(device)),
            },
    {
        if !self.sectors.contains_key(lba) {
            let ghost d0 = device.disk();
            let buf: Vec<u8> = match read_sectors(device, lba, 1) {
                Ok(v) => v,
                Err(e) => {
                    return Err(e);
                },
            };
            let sector: [u8; 512] = to_sector(&buf);
            self.maybe_evict(device);
            let ghost mid = *self;
            self.sectors.insert(lba, sector);
            self.clock.push(lba);
            proof {
                let d1 = device.disk();
                assert(!mid.clock@.contains(lba));
                assert(self.clock@ == mid.clock@.push(lba));
                assert forall|x: u64| #[trigger] self.clock@.contains(
                    x,
                ) <==> self.contents().contains_key(x) by {
                    assert(mid.clock@.contains(x) <==> mid.contents().contains_key(x));
                    if x == lba {
                        assert(self.clock@[self.clock@.len() - 1] == lba);
                    } else if mid.clock@.contains(x) {
                        let j = choose|j: int| 0 <= j < mid.clock@.len() && mid.clock@[j] == x;
                        assert(self.clock@[j] == x);
                    }
                }
                assert(!old(self).dirty_set().contains(lba));
                if old(self).coherent(d0) {
                    assert forall|l: u64|
                        old(self).in_table(l as int) implies #[trigger] self.logical(d1, l)
                            == old(self).logical(d0, l) by {
                        assert(mid.logical(d1, l) == old(self).logical(d0, l));
                    }
                    assert forall|l: u64| #[trigger]
                        self.contents().contains_key(l) && self.in_table(l as int)
                            && !self.dirty_set().contains(l) implies self.contents()[l]
                        == sector_at(d1, l as int) by {
                        if l == lba {
                            assert(!old(self).in_mirror(l as int));
                            assert(sector_at(d1, l as int) == sector_at(d0, l as int));
                        } else {
                            assert(mid.contents().contains_key(l));
                        }
                    }
                }
            }
        }
        Ok(())
    }

    /// Sector `lba`, from memory or from the device.
    pub fn get_or_read<D: BlockDevice>(&mut self, device: &mut D, lba: u64) -> (r: Result<
        [u8; 512],
        VfsError,
    >)
        requires
            old(self).inv(),
            old(device).sector_len() == SECTOR_SIZE,
            old(self).fat0_lba <= lba < LBA_LIMIT,
        ensures
            final(self).inv(),
            io::same_device(*final(device), *old(device)),
            old(self).keeps(old(device).disk(), *final(self), final(device).disk()),
            old(self).contents().contains_key(lba) ==> r is Ok && *final(self) == *old(self)
                && *final(device) == *old(device),
            match r {
                Ok(s) => s@ == old(self).logical(old(device).disk(), lba),
                Err(e) => e == VfsError::IOError && *final(self) == *old(self)
                    && final(device).disk() == old(device).disk() && traits::faults(*final(device))
                    > traits::faults(*old(device)),
            },
    {
        match self.load(device, lba) {
            Ok(_) => {},
            Err(e) => return Err(e),
        }
        match self.sectors.get(lba) {
            Some(s) => Ok(s),
            None => {
                assert(false);
                Err(VfsError::IOError)
            },
        }
    }

    /// Sector `lba`, from memory or from the device, which is dirty from now on.
    pub fn get_or_read_mut<D: BlockDevice>(&mut self, device: &mut D, lba: u64) -> (r: Result<
        [u8; 512],
        VfsError,
    >)
        requires
            old(self).inv(),
            old(device).sector_len() == SECTOR_SIZE,
            old(self).fat0_lba <= lba < LBA_LIMIT,
        ensures
            final(self).inv(),
            io::same_device(*final(device), *old(device)),
            final(self).same_layout(*old(self)),
            old(self).coherent(old(device).disk()) ==> final(self).coherent(final(device).disk())
                && forall|l: u64|
                old(self).in_table(l as int) ==> #[trigger] final(self).logical(
                    final(device).disk(),
                    l,
                ) == old(self).logical(old(device).disk(), l),
            forall|l: u64| #[trigger]
                final(self).dirty_set().contains(l) ==> l == lba || old(self).dirty_set().contains(
                    l,
                ),
            old(self).touches_only_dirty(old(device).disk(), final(device).disk()),
            old(self).contents().contains_key(lba) ==> r is Ok && final(self).contents()
                == old(self).contents() && *final(device) == *old(device),
            match r {
                Ok(s) => s@ == old(self).logical(old(device).disk(), lba)
                    && final(self).dirty_set().contains(lba) && final(self).contents()[lba] == s@,
                Err(e) => e == VfsError::IOError && *final(self) == *old(self)
                    && final(device).disk() == old(device).disk() && traits::faults(*final(device))
                    > traits::faults(*old(device)),
            },
    {
        match self.load(device, lba) {
            Ok(_) => {},
            Err(e) => return Err(e),
        }
        let ghost mid = *self;
        let s: [u8; 512] = match self.sectors.get(lba) {
            Some(s) => s,
            None => {
                assert(false);
                return Err(VfsError::IOError);
            },
        };
        self.dirty.insert(lba);
        proof {
            if old(self).coherent(old(device).disk()) {
                assert forall|l: u64| old(self).in_table(l as int) implies #[trigger] self.logical(
                    device.disk(),
                    l,
                ) == old(self).logical(old(device).disk(), l) by {
                    assert(mid.logical(device.disk(), l) == old(self).logical(
                        old(device).disk(),
                        l,
                    ));
                }
            }
        }
        Ok(s)
    }

    /// Two copies of different sectors of the table do not meet.
    proof fn lemma_mirrors_apart(self, l1: int, k1: int, l2: int, k2: int)
        requires
            self.fat_sz >= 1,
            self.in_table(l1),
            self.in_table(l2),
            l1 != l2,
        ensures
            l1 + k1 * self.fat_sz != l2 + k2 * self.fat_sz,
    {
        let f = self.fat_sz as int;
        let dk = k2 - k1;
        assert(k2 * f - k1 * f == dk * f) by (nonlinear_arith)
            requires
                dk == k2 - k1,
        ;
        if dk >= 1 {
            assert(dk * f >= f) by (nonlinear_arith)
                requires
                    dk >= 1,
                    f >= 1,
            ;
        } else if dk <= -1 {
            assert(dk * f <= -f) by (nonlinear_arith)
                requires
                    dk <= -1,
                    f >= 1,
            ;
        } else {
            assert(dk * f == 0) by (nonlinear_arith)
                requires
                    dk == 0,
            ;
        }
    }

    /// The copy of table sector `l` in table `k` of the contents `d`.
    pub open spec fn copy(self, d: spec_fn(int) -> u8, l: int, k: int) -> Seq<u8> {
        sector_at(d, l + k * self.fat_sz)
    }

    /// The sectors `start..start + len`, all of which are in memory, are in the table.
    pub open spec fn run_in_table(self, start: int, len: int) -> bool {
        self.in_table(start) && self.in_table(start + len - 1)
    }

    /// `l` is below every copy of the table.
    pub open spec fn below_copies(self, l: int) -> bool {
        self.mirrored ==> l < self.fat0_lba + self.fat_sz
    }

    /// What writing `start..start + len` to the device may change.
    pub open spec fn run_frame(
        self,
        start: int,
        len: int,
        d: spec_fn(int) -> u8,
        nd: spec_fn(int) -> u8,
    ) -> bool {
        &&& forall|l: u64|
            !(start <= l < start + len) && self.below_copies(l as int) ==> #[trigger] sector_at(
                nd,
                l as int,
            ) == sector_at(d, l as int)
        &&& self.run_in_table(start, len) ==> forall|l: u64|
            !(start <= l < start + len) && !self.in_mirror(l as int) ==> #[trigger] sector_at(
                nd,
                l as int,
            ) == sector_at(d, l as int)
    }

    /// The sectors `start..start + n` are on the device as they are in memory, and so
    /// are their copies; the copies of other sectors of the table are as in `d`.
    pub open spec fn run_written(
        self,
        start: int,
        n: int,
        d: spec_fn(int) -> u8,
        nd: spec_fn(int) -> u8,
        guard: bool,
    ) -> bool {
        &&& forall|l: u64|
            start <= l < start + n && self.below_copies(l as int) ==> #[trigger] sector_at(
                nd,
                l as int,
            ) == self.contents()[l]
        &&& guard ==> forall|l: int, k: int|
            self.in_table(l) && 1 <= k < self.num_fats
                ==> #[trigger] self.copy(nd, l, k)
                == (if start <= l < start + n { self.contents()[l as u64] } else { self.copy(d, l,
                k) })
    }

    /// Writes the sectors `start..start + len` from memory to the device, and to
    /// every copy of the table where the tables are mirrored.
    fn flush_run<D: BlockDevice>(&self, device: &mut D, start: u64, len: u32) -> (r: Result<
        (),
        VfsError,
    >)
        requires
            self.inv(),
            old(device).sector_len() == SECTOR_SIZE,
            len >= 1,
            forall|l: u64| start <= l < start + len ==> #[trigger] self.contents().contains_key(l),
            start + len <= LBA_LIMIT,
        ensures
            io::same_device(*final(device), *old(device)),
            r matches Err(e) ==> e == VfsError::IOError && traits::faults(*final(device))
                > traits::faults(*old(device)),
            self.run_frame(start as int, len as int, old(device).disk(), final(device).disk()),
            r is Ok ==> self.run_written(
                start as int,
                len as int,
                old(device).disk(),
                final(device).disk(),
                self.mirrored && self.run_in_table(start as int, len as int),
            ),
    {
        let ghost d0 = device.disk();
        let ghost guard = self.mirrored && self.run_in_table(start as int, len as int);
        let mut off: u32 = 0;
        while off < len
            invariant
                off <= len,
                len >= 1,
                self.inv(),
                d0 == old(device).disk(),
                device.sector_len() == SECTOR_SIZE,
                io::same_device(*device, *old(device)),
                forall|l: u64|
                    start <= l < start + len ==> #[trigger] self.contents().contains_key(l),
                start + len <= LBA_LIMIT,
                self.run_frame(start as int, len as int, d0, device.disk()),
                guard == (self.mirrored && self.run_in_table(start as int, len as int)),
                self.run_written(start as int, off as int, d0, device.disk(), guard),
            decreases len - off,
        {
            let rest: u32 = len - off;
            let chunk: u32 = if rest < FLUSH_MAX_SECTORS {
                rest
            } else {
                FLUSH_MAX_SECTORS
            };
            let chunk_start: u64 = start + off as u64;
            assert(self.contents().contains_key(chunk_start));
            let buf: Vec<u8> = match self.gather(chunk_start, chunk) {
                Some(b) => b,
                None => {
                    return Err(VfsError::IOError);
                },
            };
            let ghost d1 = device.disk();
            let primary = write_sectors(device, chunk_start, chunk, buf.as_slice());
            let ghost d2 = device.disk();
            proof {
                assert forall|l: int|
                    !(chunk_start <= l < chunk_start + chunk) implies #[trigger] sector_at(d2, l)
                    == sector_at(d1, l) by {
                    lemma_sector_outside(d1, d2, chunk_start as int, chunk as int, l);
                }
            }
            match primary {
                Ok(_) => {},
                Err(e) => {
                    return Err(e);
                },
            }
            proof {
                assert forall|l: u64|
                    chunk_start <= l < chunk_start + chunk implies #[trigger] sector_at(d2, l as int)
                    == self.contents()[l] by {
                    let j = l - chunk_start;
                    lemma_sector_written(d1, chunk_start as int, buf@, chunk as int, j);
                    assert(buf@.subrange(j * 512, (j + 1) * 512) == self.contents()[(chunk_start
                        + j) as u64]);
                }
                if guard {
                    assert forall|l: int, k: int|
                        self.in_table(l)
                            && 1 <= k < self.num_fats implies #[trigger] self.copy(d2, l, k)
                            == (if start <= l < start + off { self.contents()[l as u64] } else { self.copy(d0, l, k) }) by {
                        
                        assert(k * self.fat_sz >= self.fat_sz) by (nonlinear_arith)
                            requires
                                k >= 1,
                                self.fat_sz >= 1,
                        ;
                        assert(self.copy(d2, l, k) == self.copy(d1, l, k));
                    }
                }
            }
            if self.mirrored {
                match self.write_copies(device, chunk_start, chunk, buf.as_slice()) {
                    Ok(_) => {},
                    Err(e) => {
                        return Err(e);
                    },
                }
            }
            proof {
                let d3 = device.disk();
                if guard {
                    assert forall|l: int, k: int|
                        self.in_table(l)
                            && 1 <= k < self.num_fats implies #[trigger] self.copy(d3, l, k)
                            == (if start <= l < start + off + chunk { self.contents()[l as u64] } else { self.copy(d0, l, k) }) by {
                        
                    }
                }
            }
            off = off + chunk;
        }
        Ok(())
    }

    /// The sectors `start..start + n` from memory, one after the other.
    fn gather(&self, start: u64, n: u32) -> (r: Option<Vec<u8>>)
        requires
            self.inv(),
            n <= FLUSH_MAX_SECTORS,
            start + n <= LBA_LIMIT,
            forall|l: u64| start <= l < start + n ==> #[trigger] self.contents().contains_key(l),
        ensures
            r matches Some(b) && b@.len() == n * 512 && forall|j: int|
                0 <= j < n ==> #[trigger] b@.subrange(j * 512, (j + 1) * 512) == self.contents()[(
                start + j) as u64],
    {
        let mut buf: Vec<u8> = vec![0u8; n as usize * SECTOR_SIZE];
        let mut i: u32 = 0;
        while i < n
            invariant
                i <= n <= FLUSH_MAX_SECTORS,
                buf@.len() == n * 512,
                self.inv(),
                forall|l: u64| start <= l < start + n ==> #[trigger] self.contents().contains_key(l),
                start + n <= LBA_LIMIT,
                forall|j: int|
                    0 <= j < i ==> #[trigger] buf@.subrange(j * 512, (j + 1) * 512)
                        == self.contents()[(start + j) as u64],
            decreases n - i,
        {
            let lba: u64 = start + i as u64;
            assert(self.contents().contains_key(lba));
            let data: [u8; 512] = match self.sectors.get(lba) {
                Some(d) => d,
                None => {
                    return None;
                },
            };
            let ghost prev = buf@;
            copy_at(buf.as_mut_slice(), i as usize * SECTOR_SIZE, &data);
            proof {
                assert forall|j: int| 0 <= j < i + 1 implies #[trigger] buf@.subrange(
                    j * 512,
                    (j + 1) * 512,
                ) == self.contents()[(start + j) as u64] by {
                    if j < i {
                        assert(buf@.subrange(j * 512, (j + 1) * 512) =~= prev.subrange(
                            j * 512,
                            (j + 1) * 512,
                        ));
                    } else {
                        assert(buf@.subrange(j * 512, (j + 1) * 512) =~= data@);
                    }
                }
            }
            i = i + 1;
        }
        Some(buf)
    }

    /// The byte `k` of a row of sectors from `start` on, which hold `b` on the device.
    pub open spec fn byte_over(self, b: Seq<u8>, start: int, k: int) -> u8 {
        let lba = (start + k / 512) as u64;
        if self.contents().contains_key(lba) {
            self.contents()[lba][k % 512]
        } else {
            b[k]
        }
    }

    /// Puts the sectors that are in memory over a row of `n` sectors from `start` on.
    pub(crate) fn overlay(&self, buf: &mut Vec<u8>, start: u64, n: u32)
        requires
            self.inv(),
            old(buf)@.len() == n * 512,
            start + n <= u64::MAX,
        ensures
            final(buf)@.len() == n * 512,
            forall|k: int|
                0 <= k < n * 512 ==> #[trigger] final(buf)@[k] == self.byte_over(
                    old(buf)@,
                    start as int,
                    k,
                ),
    {
        let ghost b = buf@;
        let mut i: u32 = 0;
        while i < n
            invariant
                i <= n,
                self.inv(),
                b == old(buf)@,
                buf@.len() == n * 512,
                start + n <= u64::MAX,
                forall|k: int|
                    0 <= k < i * 512 ==> #[trigger] buf@[k] == self.byte_over(b, start as int, k),
                forall|k: int| i * 512 <= k < n * 512 ==> #[trigger] buf@[k] == b[k],
            decreases n - i,
        {
            let lba: u64 = start + i as u64;
            let ghost prev = buf@;
            if let Some(data) = self.sectors.get(lba) {
                assert(buf@.len() == buf.len());
                copy_at(buf.as_mut_slice(), i as usize * SECTOR_SIZE, &data);
            }
            assert forall|k: int| 0 <= k < (i + 1) * 512 implies #[trigger] buf@[k]
                == self.byte_over(b, start as int, k) by {
                if k < i * 512 {
                    assert(buf@[k] == prev[k]);
                } else {
                    assert(k / 512 == i && k % 512 == k - i * 512);
                }
            }
            i = i + 1;
        }
    }

    /// Writes the bytes of the sectors `start..start + n` to every copy of the table.
    fn write_copies<D: BlockDevice>(&self, device: &mut D, start: u64, n: u32, buf: &[u8]) -> (r:
        Result<(), VfsError>)
        requires
            self.inv(),
            self.mirrored,
            1 <= n <= FLUSH_MAX_SECTORS,
            self.fat0_lba <= start,
            start + n <= LBA_LIMIT,
            old(device).sector_len() == SECTOR_SIZE,
            buf@.len() == n * 512,
            forall|j: int|
                0 <= j < n ==> #[trigger] buf@.subrange(j * 512, (j + 1) * 512) == self.contents()[(
                start + j) as u64],
        ensures
            io::same_device(*final(device), *old(device)),
            r matches Err(e) ==> e == VfsError::IOError && traits::faults(*final(device))
                > traits::faults(*old(device)),
            forall|l: u64|
                self.below_copies(l as int) ==> #[trigger] sector_at(
                    final(device).disk(),
                    l as int,
                ) == sector_at(old(device).disk(), l as int),
            self.run_in_table(start as int, n as int) ==> forall|l: u64|
                !self.in_mirror(l as int) ==> #[trigger] sector_at(final(device).disk(), l as int)
                    == sector_at(old(device).disk(), l as int),
            r is Ok && self.run_in_table(start as int, n as int) ==> forall|l: int, k: int|
                self.in_table(l) && 1 <= k < self.num_fats
                    ==> #[trigger] self.copy(final(device).disk(), l, k)
                    == (if start <= l < start + n { self.contents()[l as u64] } else { self.copy(old(device).disk(), l, k) }),
    {
        let ghost d2 = device.disk();
        let ghost guard = self.run_in_table(start as int, n as int);
        let local_idx: u64 = (start - self.fat0_lba) % (self.fat_sz as u64);
        let mut fat_num: u8 = 1;
        while fat_num < self.num_fats
            invariant
                1 <= fat_num,
                1 <= n <= FLUSH_MAX_SECTORS,
                self.inv(),
                self.mirrored,
                d2 == old(device).disk(),
                device.sector_len() == SECTOR_SIZE,
                io::same_device(*device, *old(device)),
                start + n <= LBA_LIMIT,
                self.fat0_lba <= start,
                buf@.len() == n * 512,
                local_idx == (start - self.fat0_lba) % (self.fat_sz as int),
                forall|j: int|
                    0 <= j < n ==> #[trigger] buf@.subrange(j * 512, (j + 1) * 512)
                        == self.contents()[(start + j) as u64],
                forall|l: u64|
                    self.below_copies(l as int) ==> #[trigger] sector_at(device.disk(), l as int)
                        == sector_at(d2, l as int),
                guard == self.run_in_table(start as int, n as int),
                guard ==> forall|l: u64|
                    !self.in_mirror(l as int) ==> #[trigger] sector_at(device.disk(), l as int)
                        == sector_at(d2, l as int),
                guard ==> forall|l: int, k: int|
                    self.in_table(l) && 1 <= k < self.num_fats
                        ==> #[trigger] self.copy(device.disk(), l, k)
                        == (if start <= l < start + n
                        && k < fat_num { self.contents()[l as u64] } else { self.copy(d2, l, k) }),
            decreases self.num_fats - fat_num,
        {
            let ghost kf = fat_num as int;
            proof {
                self.lemma_mirror_range(kf, start as int);
                if guard {
                    self.lemma_mirror_range(kf, start + n - 1);
                }
            }
            let mirror_start: u64 = self.fat0_lba + (fat_num as u64) * (self.fat_sz as u64)
                + local_idx;
            let ghost dm = device.disk();
            let copied = write_sectors(device, mirror_start, n, buf);
            let ghost dn = device.disk();
            proof {
                assert forall|l: int|
                    !(mirror_start <= l < mirror_start + n) implies #[trigger] sector_at(dn, l)
                    == sector_at(dm, l) by {
                    lemma_sector_outside(dm, dn, mirror_start as int, n as int, l);
                }
            }
            match copied {
                Ok(_) => {},
                Err(e) => {
                    return Err(e);
                },
            }
            proof {
                if guard {
                    assert(mirror_start == start + kf * self.fat_sz);
                    assert forall|l: int, k: int|
                        self.in_table(l)
                            && 1 <= k < self.num_fats implies #[trigger] self.copy(dn, l, k)
                            == (if start <= l < start + n
                            && k < fat_num + 1 { self.contents()[l as u64] } else { self.copy(d2,
                            l, k) }) by {
                        
                        if k == kf && start <= l < start + n {
                            lemma_sector_written(dm, mirror_start as int, buf@, n as int, l - start);
                            assert(buf@.subrange((l - start) * 512, (l - start + 1) * 512)
                                == self.contents()[(start + (l - start)) as u64]);
                        } else {
                            let at = l + k * self.fat_sz;
                            assert(self.copy(dm, l, k) == sector_at(dm, at));
                            if mirror_start <= at < mirror_start + n {
                                let l2 = at - kf * self.fat_sz;
                                assert(self.in_table(l2));
                                if l != l2 {
                                    self.lemma_mirrors_apart(l, k, l2, kf);
                                } else {
                                    assert(k * self.fat_sz == kf * self.fat_sz);
                                    assert(k == kf) by (nonlinear_arith)
                                        requires
                                            k * self.fat_sz == kf * self.fat_sz,
                                            self.fat_sz >= 1,
                                    ;
                                }
                            }
                        }
                    }
                }
            }
            fat_num = fat_num + 1;
        }
        Ok(())
    }

    /// The dirty sectors in ascending order.
    fn sorted_dirty(&self) -> (r: Vec<u64>)
        ensures
            forall|l: u64| #[trigger] r@.contains(l) <==> self.dirty_set().contains(l),
            forall|i: int, j: int| 0 <= i <= j < r@.len() ==> r@[i] <= r@[j],
    {
        let mut v: Vec<u64> = self.dirty.members();
        let ghost before = v@;
        sort_numbers(&mut v);
        proof {
            before.to_multiset_ensures();
            v@.to_multiset_ensures();
            assert forall|l: u64| #[trigger] v@.contains(l) <==> self.dirty_set().contains(l) by {
                assert(v@.contains(l) <==> v@.to_multiset().count(l) > 0);
                assert(before.contains(l) <==> before.to_multiset().count(l) > 0);
            }
        }
        v
    }

    /// The sector `l` is on the device `d` as it is in memory, and so are its copies.
    pub open spec fn stored(self, d: spec_fn(int) -> u8, l: u64) -> bool {
        &&& self.below_copies(l as int) ==> sector_at(d, l as int) == self.contents()[l]
        &&& self.mirrored && self.dirty_in_table() ==> forall|k: int|
            1 <= k < self.num_fats ==> #[trigger] self.copy(d, l as int, k) == self.contents()[l]
    }

    /// What a flush may change.
    pub open spec fn flush_frame(self, d: spec_fn(int) -> u8, nd: spec_fn(int) -> u8) -> bool {
        &&& forall|l: u64|
            !self.dirty_set().contains(l) && self.below_copies(l as int) ==> #[trigger] sector_at(
                nd,
                l as int,
            ) == sector_at(d, l as int)
        &&& self.dirty_in_table() ==> self.touches_only_dirty(d, nd)
    }

    /// Writes one run of dirty sectors; those written before stay written.
    fn flush_next<D: BlockDevice>(
        &self,
        device: &mut D,
        start: u64,
        len: u32,
        base: Ghost<spec_fn(int) -> u8>,
        done: Ghost<Set<u64>>,
    ) -> (r: Result<(), VfsError>)
        requires
            self.inv(),
            old(device).sector_len() == SECTOR_SIZE,
            len >= 1,
            forall|l: u64| start <= l < start + len ==> #[trigger] self.dirty_set().contains(l),
            start + len <= LBA_LIMIT,
            self.flush_frame(base@, old(device).disk()),
            forall|l: u64| #[trigger]
                done@.contains(l) ==> self.dirty_set().contains(l) && self.stored(
                    old(device).disk(),
                    l,
                ),
        ensures
            io::same_device(*final(device), *old(device)),
            r matches Err(e) ==> e == VfsError::IOError && traits::faults(*final(device))
                > traits::faults(*old(device)),
            self.flush_frame(base@, final(device).disk()),
            r is Ok ==> forall|l: u64|
                done@.contains(l) || start <= l < start + len ==> #[trigger] self.stored(
                    final(device).disk(),
                    l,
                ),
    {
        let ghost d0 = device.disk();
        let ghost s = start as int;
        let ghost n = len as int;
        proof {
            assert(self.dirty_set().contains(start));
            assert(self.dirty_set().contains((start + len - 1) as u64));
            assert forall|l: u64| start <= l < start + len implies #[trigger]
                self.contents().contains_key(l) by {
                assert(self.dirty_set().contains(l));
            }
        }
        let r = self.flush_run(device, start, len);
        proof {
            let d1 = device.disk();
            assert(self.dirty_in_table() ==> self.run_in_table(s, n));
            if r is Ok {
                assert forall|l: u64|
                    done@.contains(l) || start <= l < start + len implies #[trigger] self.stored(
                    d1,
                    l,
                ) by {
                    assert(done@.contains(l) ==> self.stored(d0, l));
                    if self.below_copies(l as int) && !(s <= l < s + n) {
                        assert(sector_at(d1, l as int) == sector_at(d0, l as int));
                    }
                    if self.mirrored && self.dirty_in_table() {
                        assert(self.dirty_set().contains(l));
                        assert forall|k: int| 1 <= k < self.num_fats implies #[trigger] self.copy(
                            d1,
                            l as int,
                            k,
                        ) == self.contents()[l] by {
                            assert(self.in_table(l as int));
                            assert(self.copy(d1, l as int, k) == (if s <= l < s + n {
                                self.contents()[l]
                            } else {
                                self.copy(d0, l as int, k)
                            }));
                        }
                    }
                }
            }
        }
        r
    }

    /// Writes all dirty sectors to the device, in runs that are as long as can be,
    /// and to every copy of the table where the tables are mirrored.
    pub fn flush<D: BlockDevice>(&mut self, device: &mut D) -> (r: Result<(), VfsError>)
        requires
            old(self).inv(),
            old(device).sector_len() == SECTOR_SIZE,
        ensures
            final(self).inv(),
            io::same_device(*final(device), *old(device)),
            final(self).same_layout(*old(self)),
            final(self).contents() == old(self).contents(),
            old(self).flush_frame(old(device).disk(), final(device).disk()),
            old(self).coherent(old(device).disk()) ==> final(self).coherent(final(device).disk())
                && forall|l: u64|
                old(self).in_table(l as int) ==> #[trigger] final(self).logical(
                    final(device).disk(),
                    l,
                ) == old(self).logical(old(device).disk(), l),
            match r {
                Ok(_) => final(self).dirty_set() == Set::<u64>::empty() && forall|l: u64|
                    old(self).dirty_set().contains(l) ==> #[trigger] old(self).stored(
                        final(device).disk(),
                        l,
                    ),
                Err(e) => e == VfsError::IOError && final(self).dirty_set() == old(self).dirty_set()
                    && traits::faults(*final(device)) > traits::faults(*old(device)),
            },
            old(self).dirty_set() == Set::<u64>::empty() ==> r is Ok && *final(device)
                == *old(device),
    {
        let ghost d0 = device.disk();
        let dirty_lbas: Vec<u64> = self.sorted_dirty();
        if dirty_lbas.len() == 0 {
            proof {
                assert forall|l: u64| !self.dirty_set().contains(l) by {
                    assert(dirty_lbas@.contains(l) <==> self.dirty_set().contains(l));
                }
                assert(self.dirty_set() =~= Set::<u64>::empty());
            }
            return Ok(());
        }
        assert(forall|k: int|
            0 <= k < dirty_lbas@.len() ==> dirty_lbas@.contains(#[trigger] dirty_lbas@[k]));
        let mut run_start: u64 = dirty_lbas[0];
        let mut run_len: u32 = 1;
        let mut idx: usize = 1;
        let ghost mut done: Set<u64> = Set::empty();
        assert(self.dirty_set().contains(dirty_lbas@[0]));
        while idx < dirty_lbas.len()
            invariant
                *self == *old(self),
                self.inv(),
                d0 == old(device).disk(),
                device.sector_len() == SECTOR_SIZE,
                io::same_device(*device, *old(device)),
                1 <= idx <= dirty_lbas@.len(),
                run_len >= 1,
                forall|l: u64| #[trigger] dirty_lbas@.contains(l) <==> self.dirty_set().contains(l),
                forall|k: int|
                    0 <= k < dirty_lbas@.len() ==> dirty_lbas@.contains(#[trigger] dirty_lbas@[k]),
                forall|l: u64|
                    run_start <= l < run_start + run_len ==> #[trigger] self.dirty_set().contains(
                        l,
                    ),
                run_start + run_len <= LBA_LIMIT,
                self.flush_frame(d0, device.disk()),
                forall|l: u64| #[trigger]
                    done.contains(l) ==> self.dirty_set().contains(l) && self.stored(
                        device.disk(),
                        l,
                    ),
                forall|k: int|
                    0 <= k < idx ==> done.contains(#[trigger] dirty_lbas@[k]) || run_start
                        <= dirty_lbas@[k] < run_start + run_len,
            decreases dirty_lbas@.len() - idx,
        {
            let lba: u64 = dirty_lbas[idx];
            assert(self.dirty_set().contains(lba));
            assert(self.contents().contains_key(lba));
            if lba == run_start + run_len as u64 && run_len < u32::MAX {
                run_len = run_len + 1;
            } else {
                match self.flush_next(device, run_start, run_len, Ghost(d0), Ghost(done)) {
                    Ok(_) => {},
                    Err(e) => {
                        proof {
                            if self.coherent(d0) {
                                self.lemma_flush_failed(d0, device.disk());
                            }
                        }
                        return Err(e);
                    },
                }
                proof {
                    let prev = done;
                    done = Set::new(
                        |l: u64| prev.contains(l) || run_start <= l < run_start + run_len,
                    );
                    assert forall|l: u64| #[trigger] done.contains(l) implies self.dirty_set().contains(
                        l,
                    ) && self.stored(device.disk(), l) by {
                        assert(prev.contains(l) || run_start <= l < run_start + run_len);
                    }
                }
                run_start = lba;
                run_len = 1;
            }
            idx = idx + 1;
        }
        match self.flush_next(device, run_start, run_len, Ghost(d0), Ghost(done)) {
            Ok(_) => {},
            Err(e) => {
                proof {
                    if self.coherent(d0) {
                                self.lemma_flush_failed(d0, device.disk());
                            }
                }
                return Err(e);
            },
        }
        let ghost d1 = device.disk();
        proof {
            assert forall|l: u64| self.dirty_set().contains(l) implies #[trigger] self.stored(
                d1,
                l,
            ) by {
                assert(dirty_lbas@.contains(l));
                let k = choose|k: int| 0 <= k < dirty_lbas@.len() && dirty_lbas@[k] == l;
                assert(done.contains(dirty_lbas@[k]) || run_start <= dirty_lbas@[k] < run_start
                    + run_len);
            }
        }
        self.dirty.clear();
        proof {
            if old(self).coherent(d0) {
                assert forall|l: u64| #[trigger]
                    self.contents().contains_key(l) && self.in_table(l as int)
                        && !self.dirty_set().contains(l) implies self.contents()[l] == sector_at(
                    d1,
                    l as int,
                ) by {
                    if old(self).dirty_set().contains(l) {
                        assert(old(self).stored(d1, l));
                    } else {
                        assert(sector_at(d1, l as int) == sector_at(d0, l as int));
                    }
                }
                assert forall|l: u64| old(self).in_table(l as int) implies #[trigger] self.logical(
                    d1,
                    l,
                ) == old(self).logical(d0, l) by {
                    if !self.contents().contains_key(l) {
                        assert(!old(self).dirty_set().contains(l));
                        assert(sector_at(d1, l as int) == sector_at(d0, l as int));
                    }
                }
            }
        }
        Ok(())
    }

    /// A flush that stopped half way has kept the table.
    proof fn lemma_flush_failed(self, d0: spec_fn(int) -> u8, d1: spec_fn(int) -> u8)
        requires
            self.inv(),
            self.flush_frame(d0, d1),
            self.coherent(d0),
        ensures
            self.coherent(d1),
            forall|l: u64|
                self.in_table(l as int) ==> #[trigger] self.logical(d1, l) == self.logical(d0, l),
    {
        assert forall|l: u64| #[trigger]
            self.contents().contains_key(l) && self.in_table(l as int)
                && !self.dirty_set().contains(l) implies self.contents()[l] == sector_at(
            d1,
            l as int,
        ) by {
            assert(sector_at(d1, l as int) == sector_at(d0, l as int));
        }
        assert forall|l: u64| self.in_table(l as int) implies #[trigger] self.logical(d1, l)
            == self.logical(d0, l) by {
            if !self.contents().contains_key(l) {
                assert(!self.dirty_set().contains(l));
                assert(sector_at(d1, l as int) == sector_at(d0, l as int));
            }
        }
    }

    /// Replaces a sector that is dirty.
    pub fn replace(&mut self, lba: u64, data: [u8; 512])
        requires
            old(self).inv(),
            old(self).dirty_set().contains(lba),
        ensures
            final(self).inv(),
            final(self).same_layout(*old(self)),
            final(self).contents() == old(self).contents().insert(lba, data@),
            final(self).dirty_set() == old(self).dirty_set(),
    {
        assert(self.contents().contains_key(lba));
        self.sectors.insert(lba, data);
        assert forall|x: u64| #[trigger] self.clock@.contains(x) <==> self.contents().contains_key(
            x,
        ) by {
            assert(old(self).clock@.contains(x) <==> old(self).contents().contains_key(x));
        }
    }
}

/// The sectors that a change of `lba..lba + n` leaves alone.
pub proof fn lemma_sector_outside(
    d0: spec_fn(int) -> u8,
    d1: spec_fn(int) -> u8,
    lba: int,
    n: int,
    l: int,
)
    requires
        io::same_outside(d1, d0, lba * 512, (lba + n) * 512),
        l < lba || lba + n <= l,
    ensures
        sector_at(d1, l) == sector_at(d0, l),
{
    assert(sector_at(d1, l) =~= sector_at(d0, l));
}

/// The sectors that a write of `data` to `lba..lba + n` has filled.
pub proof fn lemma_sector_written(d0: spec_fn(int) -> u8, lba: int, data: Seq<u8>, n: int, i: int)
    requires
        data.len() == n * 512,
        0 <= i < n,
    ensures
        sector_at(io::disk_write(d0, lba * 512, data), lba + i) == data.subrange(
            i * 512,
            (i + 1) * 512,
        ),
{
    assert(sector_at(io::disk_write(d0, lba * 512, data), lba + i) =~= data.subrange(
        i * 512,
        (i + 1) * 512,
    ));
}

/// What `swap_remove` leaves: all but the element at `i`, in some order.
proof fn lemma_swap_removed(a: Seq<u64>, b: Seq<u64>, i: int)
    requires
        a.no_duplicates(),
        0 <= i < a.len(),
        b == a.update(i, a.last()).drop_last(),
    ensures
        b.no_duplicates(),
        b.len() == a.len() - 1,
        forall|x: u64| #[trigger] b.contains(x) <==> a.contains(x) && x != a[i],
{
    assert forall|x: u64| #[trigger] b.contains(x) <==> a.contains(x) && x != a[i] by {
        if a.contains(x) && x != a[i] {
            let k = choose|k: int| 0 <= k < a.len() && a[k] == x;
            if k == a.len() - 1 {
                assert(b[i] == x);
            } else {
                assert(b[k] == x);
            }
        }
        if b.contains(x) {
            let k = choose|k: int| 0 <= k < b.len() && b[k] == x;
            if k == i {
                assert(a[a.len() - 1] == x);
            } else {
                assert(a[k] == x);
            }
        }
    }
}

} // verus!
