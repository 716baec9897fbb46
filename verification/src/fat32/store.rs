//! Storing bytes in the clusters of a chain.

use vstd::prelude::*;

use crate::blockdriver::traits::BlockDevice;
use crate::bytes;
use crate::bytes::{copy_at, sub_vec};
use crate::fat32::cache;
use crate::fat32::io;
use crate::fat32::io::{write_sectors_batch, SectorRun};
use crate::fat32::superblock::Fat32SuperBlock;
use crate::fat32::transfer;
use crate::fat32::transfer::{run_length, MAX_BATCH};
use crate::vfs::VfsError;
use vstd::slice::slice_subrange;

verus! {

impl<D: BlockDevice> Fat32SuperBlock<D> {
    /// No cluster of `chain` occurs twice, and each has a place on the volume.
    pub open spec fn is_storable(self, chain: Seq<u32>) -> bool {
        &&& chain.no_duplicates()
        &&& forall|k: int| 0 <= k < chain.len() ==> 2 <= #[trigger] chain[k]
    }

    /// All is as in `o` but for the clusters.
    pub open spec fn wrote_data(self, o: Self) -> bool {
        &&& self.inv()
        &&& self.same_rest(o)
        &&& self.fat_cache == o.fat_cache
        &&& forall|pos: int|
            pos < o.bpb.first_data_sec * 512 ==> #[trigger] self.device.disk()(pos)
                == o.device.disk()(pos)
    }

    /// Writing to clusters leaves the table alone.
    pub proof fn lemma_wrote_data(self, o: Self)
        requires
            self.wrote_data(o),
            o.sound(),
        ensures
            self.sound(),
            self.same_table(o),
    {
        reveal(Fat32SuperBlock::entry);
        o.lemma_active_bound();
        assert forall|l: u64| self.fat_cache.in_table(l as int) implies #[trigger] cache::sector_at(
            self.device.disk(),
            l as int,
        ) == cache::sector_at(o.device.disk(), l as int) by {
            assert(cache::sector_at(self.device.disk(), l as int) =~= cache::sector_at(
                o.device.disk(),
                l as int,
            ));
        }
        assert forall|c: int| o.has_entry(c) implies #[trigger] self.entry(c) == o.entry(c) by {
            o.lemma_entry_in_table(c);
            assert(self.entry_lba(c) == o.entry_lba(c));
            assert(cache::sector_at(self.device.disk(), o.entry_lba(c) as int) == cache::sector_at(
                o.device.disk(),
                o.entry_lba(c) as int,
            ));
        }
    }

    /// Where the device keeps byte `p` of what `chain` holds.
    pub open spec fn chain_pos(self, chain: Seq<u32>, p: int) -> int {
        let cs = self.bpb.byts_per_clus as int;
        self.bpb.lba_of(chain[p / cs] as int) * 512 + p % cs
    }

    /// `pos` is in none of the clusters of `chain`.
    pub open spec fn off_chain(self, chain: Seq<u32>, pos: int) -> bool {
        forall|k: int|
            0 <= k < chain.len() ==> pos < self.bpb.lba_of((#[trigger] chain[k]) as int) * 512
                || self.bpb.lba_of(chain[k] as int) * 512 + self.bpb.byts_per_clus <= pos
    }

    /// The contents `v` are those of `self`, but for what `chain` holds, of which the
    /// bytes from `offset` on are those of `data`.
    pub open spec fn storing(
        self,
        v: spec_fn(int) -> u8,
        chain: Seq<u32>,
        offset: int,
        data: Seq<u8>,
    ) -> bool {
        &&& forall|p: int|
            0 <= p < chain.len() * self.bpb.byts_per_clus ==> v(#[trigger] self.chain_pos(chain, p))
                == (if offset <= p < offset + data.len() {
                data[p - offset]
            } else {
                self.device.disk()(self.chain_pos(chain, p))
            })
        &&& forall|pos: int|
            self.off_chain(chain, pos) ==> #[trigger] v(pos) == self.device.disk()(pos)
    }

    /// Where byte `p` is, by cluster and place in it.
    pub proof fn lemma_chain_pos(self, chain: Seq<u32>, p: int)
        requires
            self.bpb.wf(),
            0 <= p < chain.len() * self.bpb.byts_per_clus,
        ensures
            ({
                let cs = self.bpb.byts_per_clus as int;
                &&& 0 <= p / cs < chain.len()
                &&& 0 <= p % cs < cs
                &&& p == (p / cs) * cs + p % cs
                &&& self.chain_byte(chain, p) == self.device.disk()(self.chain_pos(chain, p))
            }),
    {
        let cs = self.bpb.byts_per_clus as int;
        let n = chain.len() as int;
        let q = p / cs;
        vstd::arithmetic::div_mod::lemma_fundamental_div_mod(p, cs);
        assert(0 <= q < n && p == q * cs + p % cs) by (nonlinear_arith)
            requires
                0 <= p < n * cs,
                p == cs * q + p % cs,
                0 <= p % cs < cs,
                q == p / cs,
        ;
    }

    /// The sectors of a run meet those of a cluster of the chain only where the cluster
    /// is in the run.
    proof fn lemma_run_apart(self, chain: Seq<u32>, ci: int, n: int, k: int)
        requires
            self.bpb.wf(),
            self.is_storable(chain),
            transfer::is_run(chain, ci, n),
            n > 0,
            0 <= k < chain.len(),
            k < ci || ci + n <= k,
        ensures
            ({
                let lba = self.bpb.lba_of(chain[ci] as int);
                let other = self.bpb.lba_of(chain[k] as int);
                let secs = n * self.bpb.sec_per_clus;
                other + self.bpb.sec_per_clus <= lba || lba + secs <= other
            }),
    {
        let s = self.bpb.sec_per_clus as int;
        let c0 = chain[ci] as int;
        let x = chain[k] as int;
        assert(2 <= chain[ci] && 2 <= chain[k]);
        if c0 <= x < c0 + n {
            let j = x - c0;
            assert(chain[ci + j] == chain[ci] + j);
            assert(chain[ci + j] == chain[k]);
            assert(ci + j != k);
        }
        self.lemma_lba_of(c0);
        self.lemma_lba_of(x);
        if x < c0 {
            self.lemma_clusters_apart(x, c0);
        } else {
            assert((c0 - 2) * s + n * s <= (x - 2) * s) by (nonlinear_arith)
                requires
                    c0 + n <= x,
                    s >= 0,
            ;
        }
    }

    /// Writing whole clusters of a run stores their bytes.
    proof fn lemma_store_run(
        self,
        v: spec_fn(int) -> u8,
        chain: Seq<u32>,
        offset: int,
        data: Seq<u8>,
        ci: int,
        n: int,
        part: Seq<u8>,
    )
        requires
            self.bpb.wf(),
            self.is_storable(chain),
            self.storing(v, chain, offset, data),
            transfer::is_run(chain, ci, n),
            n > 0,
            offset + data.len() == ci * self.bpb.byts_per_clus,
            part.len() == n * self.bpb.byts_per_clus,
        ensures
            self.storing(
                io::disk_write(v, self.bpb.lba_of(chain[ci] as int) * 512, part),
                chain,
                offset,
                data + part,
            ),
    {
        let cs = self.bpb.byts_per_clus as int;
        let s = self.bpb.sec_per_clus as int;
        let base = self.bpb.lba_of(chain[ci] as int) * 512;
        let w = io::disk_write(v, base, part);
        let all = data + part;
        assert(2 <= chain[ci]);
        assert(n * cs == n * s * 512) by (nonlinear_arith)
            requires
                cs == 512 * s,
        ;
        assert forall|p: int| 0 <= p < chain.len() * self.bpb.byts_per_clus implies w(
            #[trigger] self.chain_pos(chain, p),
        ) == (if offset <= p < offset + all.len() {
            all[p - offset]
        } else {
            self.device.disk()(self.chain_pos(chain, p))
        }) by {
            self.lemma_chain_pos(chain, p);
            let k = p / cs;
            let r = p % cs;
            let pos = self.chain_pos(chain, p);
            if ci <= k < ci + n {
                let j = k - ci;
                assert(chain[ci + j] == chain[ci] + j);
                self.lemma_lba_of(chain[ci] as int);
                self.lemma_lba_of(chain[k] as int);
                let c0 = chain[ci] as int;
                let c = chain[k] as int;
                assert((c - 2) * s == (c0 - 2) * s + j * s) by (nonlinear_arith)
                    requires
                        c == c0 + j,
                ;
                assert(j * s * 512 == j * cs) by (nonlinear_arith)
                    requires
                        cs == 512 * s,
                ;
                assert(k * cs == ci * cs + j * cs) by (nonlinear_arith)
                    requires
                        k == ci + j,
                ;
                assert(j * cs + cs <= n * cs) by (nonlinear_arith)
                    requires
                        j + 1 <= n,
                        cs >= 0,
                ;
                assert(j * cs >= 0) by (nonlinear_arith)
                    requires
                        j >= 0,
                        cs >= 0,
                ;
                assert(pos == base + j * cs + r);
                assert(p == ci * cs + j * cs + r);
            } else {
                self.lemma_run_apart(chain, ci, n, k);
                assert(!(base <= pos < base + part.len()));
                if k < ci {
                    assert(k * cs + cs <= ci * cs) by (nonlinear_arith)
                        requires
                            k + 1 <= ci,
                            cs >= 0,
                    ;
                } else {
                    assert(ci * cs + n * cs <= k * cs) by (nonlinear_arith)
                        requires
                            ci + n <= k,
                            cs >= 0,
                    ;
                }
            }
        }
        assert forall|pos: int| self.off_chain(chain, pos) implies #[trigger] w(pos)
            == self.device.disk()(pos) by {
            if base <= pos < base + part.len() {
                let i = pos - base;
                let j = i / cs;
                vstd::arithmetic::div_mod::lemma_fundamental_div_mod(i, cs);
                assert(0 <= j < n && j * cs <= i < j * cs + cs) by (nonlinear_arith)
                    requires
                        0 <= i < n * cs,
                        i == cs * j + i % cs,
                        0 <= i % cs < cs,
                        j == i / cs,
                ;
                assert(chain[ci + j] == chain[ci] + j);
                let c0 = chain[ci] as int;
                let c = chain[ci + j] as int;
                self.lemma_lba_of(c0);
                self.lemma_lba_of(c);
                assert((c - 2) * s == (c0 - 2) * s + j * s) by (nonlinear_arith)
                    requires
                        c == c0 + j,
                ;
                assert(j * s * 512 == j * cs) by (nonlinear_arith)
                    requires
                        cs == 512 * s,
                ;
            }
        }
    }

    /// Replacing a cluster of the chain.
    proof fn lemma_store_cluster(
        self,
        v: spec_fn(int) -> u8,
        chain: Seq<u32>,
        ci: int,
        content: Seq<u8>,
    )
        requires
            self.bpb.wf(),
            self.is_storable(chain),
            0 <= ci < chain.len(),
            content.len() == self.bpb.byts_per_clus,
        ensures
            ({
                let cs = self.bpb.byts_per_clus as int;
                let w = io::disk_write(v, self.bpb.lba_of(chain[ci] as int) * 512, content);
                &&& forall|p: int|
                    0 <= p < chain.len() * self.bpb.byts_per_clus ==> w(
                        #[trigger] self.chain_pos(chain, p),
                    ) == (if ci * cs <= p < ci * cs + cs {
                        content[p - ci * cs]
                    } else {
                        v(self.chain_pos(chain, p))
                    })
                &&& forall|pos: int| self.off_chain(chain, pos) ==> #[trigger] w(pos) == v(pos)
            }),
    {
        let cs = self.bpb.byts_per_clus as int;
        let base = self.bpb.lba_of(chain[ci] as int) * 512;
        let w = io::disk_write(v, base, content);
        assert(transfer::is_run(chain, ci, 1));
        assert forall|p: int| 0 <= p < chain.len() * self.bpb.byts_per_clus implies w(
            #[trigger] self.chain_pos(chain, p),
        ) == (if ci * cs <= p < ci * cs + cs {
            content[p - ci * cs]
        } else {
            v(self.chain_pos(chain, p))
        }) by {
            self.lemma_chain_pos(chain, p);
            let k = p / cs;
            if k < ci {
                self.lemma_run_apart(chain, ci, 1, k);
                assert(k * cs + cs <= ci * cs) by (nonlinear_arith)
                    requires
                        k + 1 <= ci,
                        cs >= 0,
                ;
            } else if k > ci {
                self.lemma_run_apart(chain, ci, 1, k);
                assert(ci * cs + cs <= k * cs) by (nonlinear_arith)
                    requires
                        ci + 1 <= k,
                        cs >= 0,
                ;
            }
        }
    }

    /// The sectors of two runs of different parts of the chain do not meet.
    proof fn lemma_runs_apart(self, chain: Seq<u32>, a: int, m: int, b: int, n: int)
        requires
            self.bpb.wf(),
            self.is_storable(chain),
            transfer::is_run(chain, a, m),
            transfer::is_run(chain, b, n),
            m > 0,
            n > 0,
            a + m <= b,
        ensures
            ({
                let s = self.bpb.sec_per_clus;
                let x = self.bpb.lba_of(chain[a] as int);
                let y = self.bpb.lba_of(chain[b] as int);
                x + m * s <= y || y + n * s <= x
            }),
    {
        let s = self.bpb.sec_per_clus as int;
        let c = chain[a] as int;
        let d = chain[b] as int;
        assert(2 <= chain[a] && 2 <= chain[b]);
        self.lemma_lba_of(c);
        self.lemma_lba_of(d);
        if c + m <= d {
            assert((c - 2) * s + m * s <= (d - 2) * s) by (nonlinear_arith)
                requires
                    c + m <= d,
                    s >= 0,
            ;
        } else if d + n <= c {
            assert((d - 2) * s + n * s <= (c - 2) * s) by (nonlinear_arith)
                requires
                    d + n <= c,
                    s >= 0,
            ;
        } else if c <= d {
            let i = d - c;
            assert(chain[a + i] == chain[a] + i);
            assert(chain[a + i] == chain[b]);
        } else {
            let i = c - d;
            assert(chain[b + i] == chain[b] + i);
            assert(chain[b + i] == chain[a]);
        }
    }

    /// The runs in `batch` are the parts `spans` of the chain, in order, before `ci`.
    pub open spec fn batch_ok(
        self,
        chain: Seq<u32>,
        batch: Seq<SectorRun>,
        spans: Seq<(int, int)>,
        ci: int,
    ) -> bool {
        &&& batch.len() == spans.len()
        &&& forall|k: int|
            0 <= k < batch.len() ==> {
                &&& (#[trigger] batch[k]).wf()
                &&& batch[k].lba == self.bpb.lba_of(chain[spans[k].0] as int)
                &&& batch[k].lba >= self.bpb.first_data_sec
                &&& batch[k].count == spans[k].1 * self.bpb.sec_per_clus
                &&& transfer::is_run(chain, spans[k].0, spans[k].1)
                &&& spans[k].1 > 0
                &&& spans[k].0 + spans[k].1 <= ci
            }
        &&& self.is_storable(chain) ==> io::disjoint_runs(batch)
    }

    proof fn lemma_batch_push(
        self,
        chain: Seq<u32>,
        batch: Seq<SectorRun>,
        spans: Seq<(int, int)>,
        ci: int,
        n: int,
        run: SectorRun,
    )
        requires
            self.bpb.wf(),
            self.batch_ok(chain, batch, spans, ci),
            transfer::is_run(chain, ci, n),
            n > 0,
            run.wf(),
            run.lba == self.bpb.lba_of(chain[ci] as int),
            run.lba >= self.bpb.first_data_sec,
            run.count == n * self.bpb.sec_per_clus,
        ensures
            self.batch_ok(chain, batch.push(run), spans.push((ci, n)), ci + n),
    {
        let nb = batch.push(run);
        let ns = spans.push((ci, n));
        assert forall|k: int| 0 <= k < nb.len() implies {
            &&& (#[trigger] nb[k]).wf()
            &&& nb[k].lba == self.bpb.lba_of(chain[ns[k].0] as int)
            &&& nb[k].lba >= self.bpb.first_data_sec
            &&& nb[k].count == ns[k].1 * self.bpb.sec_per_clus
            &&& transfer::is_run(chain, ns[k].0, ns[k].1)
            &&& ns[k].1 > 0
            &&& ns[k].0 + ns[k].1 <= ci + n
        } by {
            if k < batch.len() {
                assert(nb[k] == batch[k]);
            }
        }
        if self.is_storable(chain) {
            assert forall|i: int, j: int|
                #![trigger nb[i], nb[j]]
                0 <= i < j < nb.len() implies nb[i].lba + nb[i].count <= nb[j].lba || nb[j].lba
                + nb[j].count <= nb[i].lba by {
                if j < batch.len() {
                    assert(nb[i] == batch[i] && nb[j] == batch[j]);
                } else {
                    assert(nb[i] == batch[i]);
                    self.lemma_runs_apart(chain, spans[i].0, spans[i].1, ci, n);
                }
            }
        }
    }

    /// Submits the runs that are pending, after which none is.
    fn flush_writes(
        &mut self,
        chain: Ghost<Seq<u32>>,
        spans: Ghost<Seq<(int, int)>>,
        ci: Ghost<int>,
        batch: &mut Vec<SectorRun>,
    ) -> (r: Result<(), VfsError>)
        requires
            old(self).inv(),
            old(self).batch_ok(chain@, old(batch)@, spans@, ci@),
        ensures
            final(self).wrote_data(*old(self)),
            old(self).is_storable(chain@) ==> forall|pos: int|
                old(self).off_chain(chain@, pos) ==> #[trigger] final(self).device.disk()(pos)
                    == old(self).device.disk()(pos),
            match r {
                Ok(_) => final(batch)@ == Seq::<SectorRun>::empty() && (old(self).is_storable(
                    chain@,
                ) ==> final(self).device.disk() == io::write_runs(
                    old(self).device.disk(),
                    old(batch)@,
                )),
                Err(e) => e == VfsError::IOError && final(self).faults() > old(self).faults(),
            },
    {
        let ghost o = *self;
        let r = write_sectors_batch(&mut self.device, batch);
        proof {
            let c = chain@;
            let b = batch@;
            assert forall|pos: int| pos < o.bpb.first_data_sec * 512 implies #[trigger] self.device.disk()(
                pos,
            ) == o.device.disk()(pos) by {
                assert forall|k: int| 0 <= k < b.len() implies !(#[trigger] b[k]).holds(pos) by {}
            }
            if o.is_storable(c) {
                assert forall|pos: int| o.off_chain(c, pos) implies #[trigger] self.device.disk()(
                    pos,
                ) == o.device.disk()(pos) by {
                    assert forall|k: int| 0 <= k < b.len() implies !(#[trigger] b[k]).holds(
                        pos,
                    ) by {
                        if b[k].holds(pos) {
                            o.lemma_run_holds(c, spans@[k].0, spans@[k].1, pos);
                        }
                    }
                }
            }
        }
        match r {
            Ok(_) => {},
            Err(e) => return Err(e),
        }
        batch.clear();
        Ok(())
    }

    /// What is in the sectors of a run is in a cluster of the chain.
    proof fn lemma_run_holds(self, chain: Seq<u32>, ci: int, n: int, pos: int)
        requires
            self.bpb.wf(),
            self.is_storable(chain),
            transfer::is_run(chain, ci, n),
            n > 0,
            ({
                let lba = self.bpb.lba_of(chain[ci] as int);
                lba * 512 <= pos < (lba + n * self.bpb.sec_per_clus) * 512
            }),
        ensures
            !self.off_chain(chain, pos),
    {
        let cs = self.bpb.byts_per_clus as int;
        let s = self.bpb.sec_per_clus as int;
        let base = self.bpb.lba_of(chain[ci] as int) * 512;
        let i = pos - base;
        let j = i / cs;
        assert(n * cs == n * s * 512) by (nonlinear_arith)
            requires
                cs == 512 * s,
        ;
        vstd::arithmetic::div_mod::lemma_fundamental_div_mod(i, cs);
        assert(0 <= j < n && j * cs <= i < j * cs + cs) by (nonlinear_arith)
            requires
                0 <= i < n * cs,
                i == cs * j + i % cs,
                0 <= i % cs < cs,
                j == i / cs,
        ;
        assert(chain[ci + j] == chain[ci] + j);
        assert(2 <= chain[ci]);
        let c0 = chain[ci] as int;
        let c = chain[ci + j] as int;
        self.lemma_lba_of(c0);
        self.lemma_lba_of(c);
        assert((c - 2) * s == (c0 - 2) * s + j * s) by (nonlinear_arith)
            requires
                c == c0 + j,
        ;
        assert(j * s * 512 == j * cs) by (nonlinear_arith)
            requires
                cs == 512 * s,
        ;
    }

    /// What writing a cluster did to the device.
    proof fn lemma_cluster_disk(self, o: Self, c: int, buf: Seq<u8>, ok: bool)
        requires
            o.inv(),
            0 <= c,
            buf.len() == o.bpb.byts_per_clus,
            self.cluster_written(o, c, buf, ok),
        ensures
            self.wrote_data(o),
            ok ==> self.device.disk() == io::disk_write(
                o.device.disk(),
                o.bpb.lba_of(c) * 512,
                buf,
            ),
    {
        let base = o.bpb.lba_of(c) * 512;
        o.lemma_lba_of(if c >= 2 {
            c
        } else {
            2
        });
        if ok {
            assert forall|p: int| #[trigger] self.device.disk()(p) == io::disk_write(
                o.device.disk(),
                base,
                buf,
            )(p) by {
                if base <= p < base + buf.len() {
                    assert(self.data(c)[p - base] == self.device.disk()(p));
                }
            }
            assert(self.device.disk() =~= io::disk_write(o.device.disk(), base, buf));
        }
    }

    /// Replaces the bytes from `skip` on of the cluster `chain[ci]` by `part`. Where
    /// `fresh`, the other bytes of the cluster become zero.
    fn store_part(
        &mut self,
        chain: &Vec<u32>,
        ci: usize,
        skip: usize,
        part: &[u8],
        fresh: bool,
    ) -> (r: Result<(), VfsError>)
        requires
            old(self).inv(),
            ci < chain@.len(),
            skip + part@.len() <= old(self).bpb.byts_per_clus,
        ensures
            final(self).wrote_data(*old(self)),
            old(self).is_storable(chain@) ==> forall|pos: int|
                old(self).off_chain(chain@, pos) ==> #[trigger] final(self).device.disk()(pos)
                    == old(self).device.disk()(pos),
            match r {
                Ok(_) => old(self).is_storable(chain@) ==> forall|p: int|
                    0 <= p < chain@.len() * old(self).bpb.byts_per_clus
                        ==> final(self).device.disk()(#[trigger] old(self).chain_pos(chain@, p))
                        == ({
                        let at = p - ci * old(self).bpb.byts_per_clus;
                        if skip <= at < skip + part@.len() {
                            part@[at - skip]
                        } else if fresh && 0 <= at < old(self).bpb.byts_per_clus {
                            0u8
                        } else {
                            old(self).device.disk()(old(self).chain_pos(chain@, p))
                        }
                    }),
                Err(e) => e == VfsError::IOError && final(self).faults() > old(self).faults(),
            },
    {
        let ghost o = *self;
        let cs: usize = self.bpb.byts_per_clus as usize;
        let cur: u32 = chain[ci];
        let mut cbuf: Vec<u8> = if fresh {
            vec![0u8; cs]
        } else {
            match self.read_cluster(cur) {
                Ok(v) => v,
                Err(e) => return Err(e),
            }
        };
        let ghost m = *self;
        let ghost was = cbuf@;
        copy_at(cbuf.as_mut_slice(), skip, part);
        let r = self.write_cluster(cur, cbuf.as_slice());
        proof {
            self.lemma_cluster_disk(m, cur as int, cbuf@, r is Ok);
            if o.is_storable(chain@) {
                let k = ci as int;
                assert forall|pos: int| o.off_chain(chain@, pos) implies #[trigger] self.device.disk()(
                    pos,
                ) == o.device.disk()(pos) by {
                    assert(chain@[k] == cur);
                }
                if r is Ok {
                    o.lemma_store_cluster(o.device.disk(), chain@, k, cbuf@);
                    assert forall|p: int| 0 <= p < chain@.len() * o.bpb.byts_per_clus implies self.device.disk()(
                        #[trigger] o.chain_pos(chain@, p),
                    ) == ({
                        let at = p - ci * o.bpb.byts_per_clus;
                        if skip <= at < skip + part@.len() {
                            part@[at - skip]
                        } else if fresh && 0 <= at < o.bpb.byts_per_clus {
                            0u8
                        } else {
                            o.device.disk()(o.chain_pos(chain@, p))
                        }
                    }) by {
                        let at = p - ci * o.bpb.byts_per_clus;
                        if 0 <= at < o.bpb.byts_per_clus {
                            o.lemma_chain_pos(chain@, p);
                            vstd::arithmetic::div_mod::lemma_fundamental_div_mod_converse(
                                p,
                                o.bpb.byts_per_clus as int,
                                k,
                                at,
                            );
                            assert(o.data(cur as int)[at] == o.device.disk()(
                                o.chain_pos(chain@, p),
                            ));
                        }
                    }
                }
            }
        }
        r
    }

    /// Byte `p` of what `chain` holds once `data` was stored from `offset` on, where the
    /// file had `size` bytes. What follows the end of the data in its last cluster is
    /// zero where that cluster lies wholly behind the old end of the file and the
    /// data begins before it or with it.
    pub open spec fn stored_byte(
        self,
        chain: Seq<u32>,
        offset: int,
        data: Seq<u8>,
        size: int,
        p: int,
    ) -> u8 {
        let cs = self.bpb.byts_per_clus as int;
        let end = offset + data.len();
        let tail = (end / cs) * cs;
        if offset <= p < end {
            data[p - offset]
        } else if offset <= tail && size <= tail && tail < end <= p < tail + cs {
            0
        } else {
            self.chain_byte(chain, p)
        }
    }

    /// From `o`, `data` was stored in `chain` from `offset` on.
    pub open spec fn chain_stored(
        self,
        o: Self,
        chain: Seq<u32>,
        offset: int,
        data: Seq<u8>,
        size: int,
    ) -> bool {
        &&& forall|p: int|
            0 <= p < chain.len() * o.bpb.byts_per_clus ==> #[trigger] self.chain_byte(chain, p)
                == o.stored_byte(chain, offset, data, size, p)
        &&& self.chain_only(o, chain)
    }

    /// From `o`, only the clusters of `chain` were written to.
    pub open spec fn chain_only(self, o: Self, chain: Seq<u32>) -> bool {
        forall|pos: int|
            o.off_chain(chain, pos) ==> #[trigger] self.device.disk()(pos) == o.device.disk()(pos)
    }

    /// Stores `buf` from `offset` on in what the clusters of `chain` hold, or as much of
    /// it as fits. Whole clusters that follow one another on the device are written
    /// together.
    pub fn write_chain(
        &mut self,
        chain: &Vec<u32>,
        offset: u64,
        buf: &[u8],
        file_size: u64,
    ) -> (r: Result<usize, VfsError>)
        requires
            old(self).inv(),
            offset + buf@.len() <= 0x1_0000_0000,
        ensures
            final(self).wrote_data(*old(self)),
            old(self).is_storable(chain@) ==> final(self).chain_only(*old(self), chain@),
            match r {
                Ok(n) => n == old(self).chain_avail(
                    chain@,
                    offset as int,
                    buf@.len() as int,
                ) && (old(self).is_storable(chain@) ==> final(self).chain_stored(
                    *old(self),
                    chain@,
                    offset as int,
                    buf@.subrange(0, n as int),
                    file_size as int,
                )),
                Err(e) => e == VfsError::IOError && final(self).faults() > old(self).faults(),
            },
    {
        let cs: u64 = self.bpb.byts_per_clus as u64;
        let ghost o = *self;
        let ghost st = o.is_storable(chain@);
        let ghost n = chain@.len() as int;
        assert(offset / cs <= 0x80_0000) by (nonlinear_arith)
            requires
                offset <= 0x1_0000_0000,
                cs >= 512,
        ;
        let mut ci: usize = (offset / cs) as usize;
        let mut clus_off: u64 = offset % cs;
        let mut done: usize = 0;
        let mut batch: Vec<SectorRun> = Vec::new();
        let ghost mut spans: Seq<(int, int)> = Seq::empty();
        proof {
            vstd::arithmetic::div_mod::lemma_fundamental_div_mod(offset as int, cs as int);
            assert(offset == ci * cs + clus_off) by (nonlinear_arith)
                requires
                    offset == cs * (offset / cs) + offset % cs,
                    ci == offset / cs,
                    clus_off == offset % cs,
            ;
            assert(buf@.subrange(0, 0) =~= Seq::<u8>::empty());
        }
        while done < buf.len() && ci < chain.len() && (clus_off != 0 || (buf.len() - done) as u64
            >= cs)
            invariant
                o == *old(self),
                st == o.is_storable(chain@),
                cs == o.bpb.byts_per_clus,
                cs >= 512,
                self.wrote_data(o),
                offset + buf@.len() <= 0x1_0000_0000,
                done <= buf@.len(),
                clus_off < cs,
                offset + done == ci * cs + clus_off || (done == buf@.len() && ci * cs - cs < offset
                    && offset + done < ci * cs),
                done > 0 ==> clus_off == 0 && ci <= chain@.len(),
                done > 0 ==> offset + done <= chain@.len() * cs,
                o.batch_ok(chain@, batch@, spans, ci as int),
                batch@.len() > 0 ==> clus_off == 0,
                st ==> o.storing(
                    io::write_runs(self.device.disk(), batch@),
                    chain@,
                    offset as int,
                    buf@.subrange(0, done as int),
                ),
                st ==> self.chain_only(o, chain@),
            decreases buf@.len() - done,
        {
            let ghost done0 = done as int;
            let ghost ci0 = ci as int;
            assert(buf@.len() == buf.len());
            if clus_off != 0 {
                let room: u64 = cs - clus_off;
                let rest: u64 = (buf.len() - done) as u64;
                let want: usize = if rest < room {
                    rest as usize
                } else {
                    room as usize
                };
                let part = slice_subrange(buf, done, done + want);
                let ghost m = *self;
                assert(batch@ =~= Seq::<SectorRun>::empty());
                let stored = self.store_part(chain, ci, clus_off as usize, part, false);
                proof {
                    lemma_data_trans(o, m, *self);
                    assert(m.is_storable(chain@) == st);
                    assert forall|pos: int| m.off_chain(chain@, pos) == o.off_chain(
                        chain@,
                        pos,
                    ) by {}
                    assert((ci0 + 1) * cs == ci0 * cs + cs) by (nonlinear_arith);
                    assert((ci0 + 1) * cs <= chain@.len() * cs) by (nonlinear_arith)
                        requires
                            ci0 + 1 <= chain@.len(),
                            cs >= 0,
                    ;
                    if st && stored is Ok {
                        assert forall|p: int| 0 <= p < chain@.len() * o.bpb.byts_per_clus implies self.device.disk()(
                            #[trigger] o.chain_pos(chain@, p),
                        ) == (if offset <= p < offset + (done + want) {
                            buf@.subrange(0, done + want)[p - offset]
                        } else {
                            o.device.disk()(o.chain_pos(chain@, p))
                        }) by {
                            assert(m.chain_pos(chain@, p) == o.chain_pos(chain@, p));
                        }
                    }
                }
                match stored {
                    Ok(_) => {},
                    Err(e) => return Err(e),
                }
                done = done + want;
                ci = ci + 1;
                clus_off = 0;
                proof {
                    assert(batch@.len() == 0);
                    assert(o.batch_ok(chain@, batch@, spans, ci as int));
                }
            } else {
                let rest: u64 = (buf.len() - done) as u64;
                let max_whole: u64 = rest / cs;
                proof {
                    vstd::arithmetic::div_mod::lemma_fundamental_div_mod(rest as int, cs as int);
                    let q = max_whole as int;
                    let left = rest as int % (cs as int);
                    assert(q >= 1) by (nonlinear_arith)
                        requires
                            rest >= cs,
                            rest == cs * q + left,
                            0 <= left < cs,
                    ;
                }
                let whole: usize = run_length(chain, ci, max_whole);
                let ghost left = rest as int % (cs as int);
                assert(whole * cs <= rest) by (nonlinear_arith)
                    requires
                        whole <= max_whole,
                        rest == cs * max_whole + left,
                        left >= 0,
                        cs >= 0,
                ;
                let bytes_now: usize = whole * cs as usize;
                let lba: u64 = self.bpb.cluster_to_lba(chain[ci]);
                let spc: u32 = self.bpb.sec_per_clus as u32;
                assert(whole * cs == whole * spc * 512) by (nonlinear_arith)
                    requires
                        cs == 512 * spc,
                ;
                assert(whole <= 0x80_0000 && whole * cs >= cs) by (nonlinear_arith)
                    requires
                        whole * cs <= 0x1_0000_0000,
                        cs >= 512,
                        whole >= 1,
                ;
                assert(whole * spc <= 0x80_0000);
                let secs: u32 = whole as u32 * spc;
                let run = SectorRun { lba, count: secs, data: sub_vec(buf, done, done + bytes_now) };
                proof {
                    o.lemma_lba_of(if chain@[ci0] >= 2 {
                        chain@[ci0] as int
                    } else {
                        2
                    });
                    o.lemma_batch_push(chain@, batch@, spans, ci0, whole as int, run);
                    if st {
                        o.lemma_store_run(
                            io::write_runs(self.device.disk(), batch@),
                            chain@,
                            offset as int,
                            buf@.subrange(0, done0),
                            ci0,
                            whole as int,
                            run.data@,
                        );
                        assert(batch@.push(run).drop_last() =~= batch@);
                        assert(buf@.subrange(0, done0) + run.data@ =~= buf@.subrange(
                            0,
                            done0 + bytes_now,
                        ));
                    }
                    assert((ci0 + whole) * cs == ci0 * cs + whole * cs) by (nonlinear_arith);
                    assert((ci0 + whole) * cs <= chain@.len() * cs) by (nonlinear_arith)
                        requires
                            ci0 + whole <= chain@.len(),
                            cs >= 0,
                    ;
                    spans = spans.push((ci0, whole as int));
                }
                batch.push(run);
                done = done + bytes_now;
                ci = ci + whole;
                let partial_next = done >= buf.len() || ci >= chain.len() || ((buf.len() - done)
                    as u64) < cs;
                if batch.len() >= MAX_BATCH || partial_next {
                    let ghost m = *self;
                    let flushed = self.flush_writes(
                        Ghost(chain@),
                        Ghost(spans),
                        Ghost(ci as int),
                        &mut batch,
                    );
                    proof {
                        lemma_data_trans(o, m, *self);
                        assert(m.is_storable(chain@) == st);
                        assert forall|pos: int| m.off_chain(chain@, pos) == o.off_chain(
                            chain@,
                            pos,
                        ) by {}
                        spans = Seq::empty();
                    }
                    match flushed {
                        Ok(_) => {},
                        Err(e) => return Err(e),
                    }
                }
            }
        }
        let ghost m = *self;
        proof {
            lemma_batch_same(o, m, chain@, batch@, spans, ci as int);
        }
        let flushed = self.flush_writes(Ghost(chain@), Ghost(spans), Ghost(ci as int), &mut batch);
        proof {
            lemma_data_trans(o, m, *self);
            assert(m.is_storable(chain@) == st);
            assert forall|pos: int| m.off_chain(chain@, pos) == o.off_chain(chain@, pos) by {}
        }
        match flushed {
            Ok(_) => {},
            Err(e) => return Err(e),
        }
        let ghost w = *self;
        let ghost done0 = done as int;
        proof {
            assert(st ==> o.storing(w.device.disk(), chain@, offset as int, buf@.subrange(0, done0)));
        }
        if done < buf.len() && ci < chain.len() {
            let rest: usize = buf.len() - done;
            let part = slice_subrange(buf, done, done + rest);
            let start: u64 = ci as u64 * cs;
            let fresh = start >= file_size;
            let stored = self.store_part(chain, ci, 0, part, fresh);
            proof {
                lemma_data_trans(o, w, *self);
                assert(w.is_storable(chain@) == st);
                assert forall|pos: int| w.off_chain(chain@, pos) == o.off_chain(chain@, pos) by {}
            }
            match stored {
                Ok(_) => {},
                Err(e) => return Err(e),
            }
            done = done + rest;
            proof {
                let k = ci as int;
                assert((k + 1) * cs == k * cs + cs) by (nonlinear_arith);
                assert((k + 1) * cs <= chain@.len() * cs) by (nonlinear_arith)
                    requires
                        k + 1 <= chain@.len(),
                        cs >= 0,
                ;
                let end = offset + done;
                vstd::arithmetic::div_mod::lemma_fundamental_div_mod_converse(
                    end,
                    cs as int,
                    k,
                    rest as int,
                );
                if st {
                    assert forall|p: int| 0 <= p < chain@.len() * o.bpb.byts_per_clus implies #[trigger] self.chain_byte(
                        chain@,
                        p,
                    ) == o.stored_byte(
                        chain@,
                        offset as int,
                        buf@.subrange(0, done as int),
                        file_size as int,
                        p,
                    ) by {
                        o.lemma_chain_pos(chain@, p);
                        self.lemma_chain_pos(chain@, p);
                        assert(w.chain_pos(chain@, p) == o.chain_pos(chain@, p));
                        assert(self.chain_pos(chain@, p) == o.chain_pos(chain@, p));
                        assert(w.device.disk()(o.chain_pos(chain@, p)) == (if offset <= p < offset
                            + done0 {
                            buf@.subrange(0, done0)[p - offset]
                        } else {
                            o.device.disk()(o.chain_pos(chain@, p))
                        }));
                    }
                }
            }
        } else {
            proof {
                let end = offset + done;
                if done < buf@.len() {
                    assert(chain@.len() * cs <= ci * cs) by (nonlinear_arith)
                        requires
                            chain@.len() <= ci,
                            cs >= 0,
                    ;
                }
                if st {
                    lemma_no_tail(offset as int, end, cs as int, ci as int, clus_off as int);
                    assert forall|p: int| 0 <= p < chain@.len() * o.bpb.byts_per_clus implies #[trigger] self.chain_byte(
                        chain@,
                        p,
                    ) == o.stored_byte(
                        chain@,
                        offset as int,
                        buf@.subrange(0, done as int),
                        file_size as int,
                        p,
                    ) by {
                        o.lemma_chain_pos(chain@, p);
                        self.lemma_chain_pos(chain@, p);
                        assert(self.chain_pos(chain@, p) == o.chain_pos(chain@, p));
                        assert(w.device.disk()(o.chain_pos(chain@, p)) == (if offset <= p < offset
                            + done0 {
                            buf@.subrange(0, done0)[p - offset]
                        } else {
                            o.device.disk()(o.chain_pos(chain@, p))
                        }));
                    }
                }
            }
        }
        Ok(done)
    }
}

/// Data that ends with a cluster, or in the cluster in which it begins, has no fresh tail.
proof fn lemma_no_tail(offset: int, end: int, cs: int, ci: int, skip: int)
    requires
        cs > 0,
        0 <= offset <= end,
        0 <= skip < cs,
        end == ci * cs + skip && (skip == 0 || end == offset) || (ci * cs - cs < offset && end < ci
            * cs),
    ensures
        !(offset <= (end / cs) * cs && (end / cs) * cs < end),
{
    if end == ci * cs + skip {
        vstd::arithmetic::div_mod::lemma_fundamental_div_mod_converse(end, cs, ci, skip);
    } else {
        assert((ci - 1) * cs == ci * cs - cs) by (nonlinear_arith);
        vstd::arithmetic::div_mod::lemma_fundamental_div_mod_converse(
            end,
            cs,
            ci - 1,
            end - (ci * cs - cs),
        );
    }
}

/// What is pending depends on the geometry only.
proof fn lemma_batch_same<D: BlockDevice>(
    o: Fat32SuperBlock<D>,
    m: Fat32SuperBlock<D>,
    chain: Seq<u32>,
    batch: Seq<SectorRun>,
    spans: Seq<(int, int)>,
    ci: int,
)
    requires
        m.bpb == o.bpb,
        o.batch_ok(chain, batch, spans, ci),
    ensures
        m.batch_ok(chain, batch, spans, ci),
{
    assert(m.is_storable(chain) == o.is_storable(chain));
}

/// Two steps that write to clusters only.
proof fn lemma_data_trans<D: BlockDevice>(
    o: Fat32SuperBlock<D>,
    m: Fat32SuperBlock<D>,
    n: Fat32SuperBlock<D>,
)
    requires
        m.wrote_data(o),
        n.wrote_data(m),
    ensures
        n.wrote_data(o),
{
    assert forall|pos: int| pos < o.bpb.first_data_sec * 512 implies #[trigger] n.device.disk()(pos)
        == o.device.disk()(pos) by {
        assert(m.device.disk()(pos) == o.device.disk()(pos));
    }
}

} // verus!
