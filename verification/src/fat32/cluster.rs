//! The contents of clusters.

use vstd::prelude::*;

use crate::blockdriver::traits::BlockDevice;
use crate::fat32::cache;
use crate::fat32::io;
use crate::fat32::io::{read_sectors, write_sectors};
use crate::fat32::superblock::Fat32SuperBlock;
use crate::vfs::VfsError;

verus! {

impl<D: BlockDevice> Fat32SuperBlock<D> {
    /// The bytes of cluster `c`.
    pub open spec fn data(self, c: int) -> Seq<u8> {
        io::disk_range(
            self.device.disk(),
            self.bpb.lba_of(c) * 512,
            self.bpb.byts_per_clus as int,
        )
    }

    /// All is as in `o` but for the device's bytes from sector `lba` to `lba + n`.
    pub open spec fn wrote_only(self, o: Self, lba: int, n: int) -> bool {
        &&& self.same_rest(o)
        &&& self.fat_cache == o.fat_cache
        &&& io::same_outside(self.device.disk(), o.device.disk(), lba * 512, (lba + n) * 512)
    }

    /// A write outside the tables leaves the table alone.
    pub proof fn lemma_wrote_outside(self, o: Self, lba: int, n: int)
        requires
            o.sound(),
            self.wrote_only(o, lba, n),
            0 <= lba,
            0 <= n,
            lba + n <= o.bpb.rsvd_sec_cnt || o.bpb.first_data_sec <= lba,
        ensures
            self.sound(),
            self.same_table(o),
    {
        reveal(Fat32SuperBlock::entry);
        o.lemma_active_bound();
        assert forall|l: u64| self.fat_cache.in_table(l as int) implies #[trigger] cache::sector_at(
            self.device.disk(),
            l as int,
        ) == cache::sector_at(o.device.disk(), l as int) by {
            cache::lemma_sector_outside(o.device.disk(), self.device.disk(), lba, n, l as int);
        }
        assert forall|c: int| o.has_entry(c) implies #[trigger] self.entry(c) == o.entry(c) by {
            o.lemma_entry_in_table(c);
            assert(self.entry_lba(c) == o.entry_lba(c));
            assert(cache::sector_at(self.device.disk(), o.entry_lba(c) as int) == cache::sector_at(
                o.device.disk(),
                o.entry_lba(c) as int,
            ));
        }
    }

    /// Where the clusters of a volume are.
    pub proof fn lemma_lba_of(self, c: int)
        requires
            self.bpb.wf(),
            2 <= c,
        ensures
            self.bpb.lba_of(c) == self.bpb.first_data_sec + (c - 2) * self.bpb.sec_per_clus,
            self.bpb.first_data_sec <= self.bpb.lba_of(c),
            self.bpb.lba_of(c + 1) == self.bpb.lba_of(c) + self.bpb.sec_per_clus,
            self.is_cluster(c) ==> self.bpb.lba_of(c) + self.bpb.sec_per_clus <= u32::MAX,
    {
        let s = self.bpb.sec_per_clus as int;
        let t = self.bpb.total_clus as int;
        assert((c - 2) * s >= 0 && (c + 1 - 2) * s == (c - 2) * s + s) by (nonlinear_arith)
            requires
                c >= 2,
                s >= 0,
        ;
        if self.is_cluster(c) {
            assert((c - 2) * s + s <= t * s) by (nonlinear_arith)
                requires
                    c - 2 + 1 <= t,
                    s >= 0,
            ;
        }
    }

    /// Different clusters share no sector.
    pub proof fn lemma_clusters_apart(self, a: int, b: int)
        requires
            self.bpb.wf(),
            2 <= a,
            a < b,
        ensures
            self.bpb.lba_of(a) + self.bpb.sec_per_clus <= self.bpb.lba_of(b),
    {
        let s = self.bpb.sec_per_clus as int;
        self.lemma_lba_of(a);
        self.lemma_lba_of(b);
        assert((a - 2) * s + s <= (b - 2) * s) by (nonlinear_arith)
            requires
                a + 1 <= b,
                s >= 0,
        ;
    }

    /// A step that left everything outside the tables alone left the clusters alone.
    pub proof fn lemma_data_same(self, o: Self, c: int)
        requires
            self.bpb == o.bpb,
            o.bpb.wf(),
            self.same_data(o),
            0 <= c < 0x1_0000_0000,
        ensures
            self.data(c) == o.data(c),
    {
        let base = o.bpb.lba_of(c) * 512;
        let k = if c >= 2 {
            c
        } else {
            2
        };
        o.lemma_lba_of(k);
        assert((k - 2) * o.bpb.sec_per_clus <= 0x1_0000_0000 * 128) by (nonlinear_arith)
            requires
                0 <= k - 2 <= 0x1_0000_0000,
                o.bpb.sec_per_clus <= 128,
        ;
        assert forall|i: int| 0 <= i < o.bpb.byts_per_clus implies self.data(c)[i]
            == o.data(c)[i] by {
            let p = base + i;
            let l = (p / 512) as u64;
            assert(l == p / 512);
            assert(self.outside_tables(l as int));
            assert(cache::sector_at(self.device.disk(), l as int) == cache::sector_at(
                o.device.disk(),
                l as int,
            ));
            assert(cache::sector_at(self.device.disk(), l as int)[p % 512] == self.device.disk()(p));
            assert(cache::sector_at(o.device.disk(), l as int)[p % 512] == o.device.disk()(p));
        }
        assert(self.data(c) =~= o.data(c));
    }

    /// Writing some sectors leaves the clusters that are elsewhere alone.
    pub proof fn lemma_data_elsewhere(self, o: Self, lba: int, n: int, c: int)
        requires
            self.bpb == o.bpb,
            o.bpb.wf(),
            io::same_outside(self.device.disk(), o.device.disk(), lba * 512, (lba + n) * 512),
            o.bpb.lba_of(c) + o.bpb.sec_per_clus <= lba || lba + n <= o.bpb.lba_of(c),
        ensures
            self.data(c) == o.data(c),
    {
        assert(self.data(c) =~= o.data(c));
    }

    /// Reads a cluster.
    pub fn read_cluster(&mut self, cluster: u32) -> (r: Result<Vec<u8>, VfsError>)
        requires
            old(self).inv(),
        ensures
            final(self).same_rest(*old(self)),
            final(self).fat_cache == old(self).fat_cache,
            final(self).device.disk() == old(self).device.disk(),
            final(self).quiet(*old(self)),
            match r {
                Ok(v) => v@ == old(self).data(cluster as int),
                Err(e) => e == VfsError::IOError && final(self).faults() > old(self).faults(),
            },
    {
        let lba: u64 = self.bpb.cluster_to_lba(cluster);
        reveal(Fat32SuperBlock::entry);
        read_sectors(&mut self.device, lba, self.bpb.sec_per_clus as u32)
    }

    /// From `o`, the bytes of cluster `c` were replaced by `buf`, or, where that
    /// failed, by something else; all else is as it was.
    pub open spec fn cluster_written(self, o: Self, c: int, buf: Seq<u8>, ok: bool) -> bool {
        &&& self.inv()
        &&& self.wrote_only(o, o.bpb.lba_of(c), o.bpb.sec_per_clus as int)
        &&& ok ==> self.data(c) == buf
        &&& o.sound() ==> self.sound() && self.same_table(o)
        &&& forall|x: int|
            2 <= x && 2 <= c && x != c ==> #[trigger] self.data(x) == o.data(x)
    }

    /// Writes a cluster.
    pub fn write_cluster(&mut self, cluster: u32, buf: &[u8]) -> (r: Result<(), VfsError>)
        requires
            old(self).inv(),
            buf@.len() == old(self).bpb.byts_per_clus,
        ensures
            final(self).cluster_written(*old(self), cluster as int, buf@, r is Ok),
            r matches Err(e) ==> e == VfsError::IOError && final(self).faults()
                > old(self).faults(),
    {
        let lba: u64 = self.bpb.cluster_to_lba(cluster);
        let n: u32 = self.bpb.sec_per_clus as u32;
        let ghost o = *self;
        let r = write_sectors(&mut self.device, lba, n, buf);
        proof {
            let c = cluster as int;
            o.lemma_lba_of(if c >= 2 {
                c
            } else {
                2
            });
            if r is Ok {
                assert(self.data(c) =~= buf@);
            }
            if o.sound() {
                self.lemma_wrote_outside(o, lba as int, n as int);
            }
            assert forall|x: int| 2 <= x && 2 <= c && x != c implies #[trigger] self.data(x)
                == o.data(x) by {
                if x < c {
                    o.lemma_clusters_apart(x, c);
                } else {
                    o.lemma_clusters_apart(c, x);
                }
                self.lemma_data_elsewhere(o, lba as int, n as int, x);
            }
        }
        r
    }

    /// Fills a cluster with zeros.
    pub fn zero_cluster(&mut self, cluster: u32) -> (r: Result<(), VfsError>)
        requires
            old(self).inv(),
        ensures
            final(self).cluster_written(
                *old(self),
                cluster as int,
                Seq::new(old(self).bpb.byts_per_clus as nat, |i: int| 0u8),
                r is Ok,
            ),
            r matches Err(e) ==> e == VfsError::IOError && final(self).faults()
                > old(self).faults(),
    {
        let zeros: Vec<u8> = vec![0u8; self.bpb.byts_per_clus as usize];
        assert(zeros@ =~= Seq::new(self.bpb.byts_per_clus as nat, |i: int| 0u8));
        self.write_cluster(cluster, zeros.as_slice())
    }
}

} // verus!
