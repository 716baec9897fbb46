//! Moving bytes between memory and the clusters of a chain.

use vstd::prelude::*;

use crate::blockdriver::traits::BlockDevice;
use crate::bytes::copy_at;
use crate::bytes;
use crate::fat32::io;
use crate::fat32::io::{read_sectors, read_sectors_batch};
use crate::fat32::superblock::Fat32SuperBlock;
use crate::vfs::VfsError;
use vstd::slice::slice_subrange;

verus! {

/// Most bytes that one request reads.
pub const MAX_RUN_BYTES: u64 = 252 * 1024;

/// Most requests that are submitted together.
pub const MAX_BATCH: usize = 16;

/// The clusters `chain[ci..ci + n]` follow one another on the device.
pub open spec fn is_run(chain: Seq<u32>, ci: int, n: int) -> bool {
    &&& 0 <= ci
    &&& ci + n <= chain.len()
    &&& forall|j: int| 0 <= j < n ==> #[trigger] chain[ci + j] == chain[ci] + j
}

/// The length of the run from `ci` on, but at most `limit`.
pub fn run_length(chain: &Vec<u32>, ci: usize, limit: u64) -> (r: usize)
    requires
        ci < chain@.len(),
        limit >= 1,
    ensures
        1 <= r <= limit,
        is_run(chain@, ci as int, r as int),
        r == limit || ci + r == chain@.len() || chain@[ci + r] != chain@[ci + r - 1] + 1,
{
    let mut n: usize = 1;
    while ci + n < chain.len() && (n as u64) < limit && chain[ci + n] as u64 == chain[ci + n - 1]
        as u64 + 1
        invariant
            1 <= n <= limit,
            ci + n <= chain.len(),
            is_run(chain@, ci as int, n as int),
        decreases chain@.len() - n,
    {
        assert(chain@[ci + (n - 1)] == chain@[ci as int] + (n - 1));
        n = n + 1;
    }
    n
}

impl<D: BlockDevice> Fat32SuperBlock<D> {
    /// Byte `p` of what the clusters of `chain` hold one after the other.
    pub open spec fn chain_byte(self, chain: Seq<u32>, p: int) -> u8 {
        self.data(chain[p / (self.bpb.byts_per_clus as int)] as int)[p % (
        self.bpb.byts_per_clus as int)]
    }

    /// The `n` bytes from `off` on of what the clusters of `chain` hold.
    pub open spec fn chain_range(self, chain: Seq<u32>, off: int, n: int) -> Seq<u8> {
        Seq::new(n as nat, |i: int| self.chain_byte(chain, off + i))
    }

    /// How many bytes the clusters of `chain` have from `off` on, up to `n`.
    pub open spec fn chain_avail(self, chain: Seq<u32>, off: int, n: int) -> int {
        let end = chain.len() * self.bpb.byts_per_clus;
        if end <= off {
            0
        } else if end - off <= n {
            end - off
        } else {
            n
        }
    }

    /// The bytes of a run on the device are those of its clusters.
    pub proof fn lemma_run_bytes(self, chain: Seq<u32>, ci: int, n: int)
        requires
            self.bpb.wf(),
            is_run(chain, ci, n),
            0 < n,
            forall|k: int| 0 <= k < chain.len() ==> 2 <= #[trigger] chain[k],
        ensures
            io::disk_range(
                self.device.disk(),
                self.bpb.lba_of(chain[ci] as int) * 512,
                n * self.bpb.byts_per_clus,
            ) == self.chain_range(
                chain,
                ci * self.bpb.byts_per_clus,
                n * self.bpb.byts_per_clus,
            ),
    {
        let cs = self.bpb.byts_per_clus as int;
        let s = self.bpb.sec_per_clus as int;
        let d = self.device.disk();
        let base = self.bpb.lba_of(chain[ci] as int) * 512;
        let a = io::disk_range(d, base, n * cs);
        let b = self.chain_range(chain, ci * cs, n * cs);
        assert(n * cs >= 0) by (nonlinear_arith)
            requires
                n > 0,
                cs >= 0,
        ;
        assert forall|i: int| 0 <= i < n * cs implies a[i] == b[i] by {
            let j = i / cs;
            let r = i % cs;
            vstd::arithmetic::div_mod::lemma_fundamental_div_mod(i, cs);
            assert(0 <= j < n) by (nonlinear_arith)
                requires
                    0 <= i < n * cs,
                    j == i / cs,
                    cs > 0,
            ;
            assert(ci * cs + i == (ci + j) * cs + r) by (nonlinear_arith)
                requires
                    i == cs * j + r,
            ;
            vstd::arithmetic::div_mod::lemma_fundamental_div_mod_converse(
                ci * cs + i,
                cs,
                ci + j,
                r,
            );
            assert(chain[ci + j] == chain[ci] + j);
            let c0 = chain[ci] as int;
            let c = chain[ci + j] as int;
            assert(2 <= chain[ci]);
            self.lemma_lba_of(c0);
            self.lemma_lba_of(c);
            assert((c - 2) * s == (c0 - 2) * s + j * s) by (nonlinear_arith)
                requires
                    c == c0 + j,
            ;
            assert(j * s * 512 == cs * j) by (nonlinear_arith)
                requires
                    cs == 512 * s,
            ;
            assert(self.bpb.lba_of(c) * 512 + r == base + i);
        }
        assert(a =~= b);
    }

    /// Reads the runs in `batch` in one submission and stores each at its place in
    /// `buf`.
    fn flush_reads(&mut self, batch: &Vec<ReadRun>, buf: &mut [u8]) -> (r: Result<(), VfsError>)
        requires
            old(self).inv(),
            forall|k: int|
                0 <= k < batch@.len() ==> (#[trigger] batch@[k]).len == batch@[k].count * 512
                    && batch@[k].off + batch@[k].len <= old(buf)@.len(),
            forall|j: int, k: int|
                #![trigger batch@[j], batch@[k]]
                0 <= j < k < batch@.len() ==> batch@[j].off + batch@[j].len <= batch@[k].off,
        ensures
            final(self).unchanged(*old(self)),
            final(buf)@.len() == old(buf)@.len(),
            match r {
                Ok(_) => (forall|k: int, i: int|
                    #![trigger batch@[k].holds(i)]
                    0 <= k < batch@.len() && batch@[k].holds(i)
                        ==> final(buf)@[i]
                        == old(self).device.disk()(batch@[k].lba * 512 + (i - batch@[k].off)))
                        && (forall|i: int|
                    0 <= i < old(buf)@.len() && (forall|k: int|
                        0 <= k < batch@.len() ==> !(#[trigger] batch@[k]).holds(i))
                            ==> final(buf)@[i] == old(buf)@[i]),
                Err(e) => e == VfsError::IOError && batch@.len() > 0 && final(self).faults()
                    > old(self).faults(),
            },
    {
        let mut runs: Vec<(u64, u32)> = Vec::new();
        let mut k: usize = 0;
        while k < batch.len()
            invariant
                k <= batch@.len(),
                runs@.len() == k,
                forall|j: int|
                    0 <= j < batch@.len() ==> (#[trigger] batch@[j]).len == batch@[j].count * 512,
                forall|j: int|
                    0 <= j < k ==> (#[trigger] runs@[j]).0 == batch@[j].lba && runs@[j].1
                        == batch@[j].count,
            decreases batch@.len() - k,
        {
            runs.push((batch[k].lba, batch[k].count));
            k = k + 1;
        }
        assert forall|j: int| 0 <= j < runs@.len() implies (#[trigger] runs@[j]).1 * 512
            <= usize::MAX by {
            assert(batch@[j].len == batch@[j].count * 512);
        }
        let parts: Vec<Vec<u8>> = match read_sectors_batch(&mut self.device, &runs) {
            Ok(p) => p,
            Err(e) => return Err(e),
        };
        let ghost d = old(self).device.disk();
        let ghost before = buf@;
        let mut k: usize = 0;
        while k < batch.len()
            invariant
                k <= batch@.len(),
                parts@.len() == batch@.len(),
                before == old(buf)@,
                buf@.len() == before.len(),
                forall|j: int|
                    0 <= j < batch@.len() ==> (#[trigger] batch@[j]).len == batch@[j].count * 512
                        && batch@[j].off + batch@[j].len <= before.len(),
                forall|j: int, k: int|
                    #![trigger batch@[j], batch@[k]]
                    0 <= j < k < batch@.len() ==> batch@[j].off + batch@[j].len <= batch@[k].off,
                forall|j: int|
                    0 <= j < batch@.len() ==> (#[trigger] parts@[j])@ == io::disk_range(
                        d,
                        batch@[j].lba * 512,
                        batch@[j].len as int,
                    ),
                forall|j: int, i: int|
                    #![trigger batch@[j].holds(i)]
                    0 <= j < k && batch@[j].holds(i) ==> buf@[i] == d(
                        batch@[j].lba * 512 + (i - batch@[j].off),
                    ),
                forall|i: int|
                    0 <= i < before.len() && (forall|j: int|
                        0 <= j < k ==> !(#[trigger] batch@[j]).holds(i)) ==> buf@[i] == before[i],
            decreases batch@.len() - k,
        {
            let ghost prev = buf@;
            assert(parts@[k as int]@.len() == batch@[k as int].len);
            copy_at(buf, batch[k].off, parts[k].as_slice());
            proof {
                assert forall|j: int, i: int|
                    #![trigger batch@[j].holds(i)]
                    0 <= j < k + 1 && batch@[j].holds(i) implies buf@[i] == d(
                    batch@[j].lba * 512 + (i - batch@[j].off),
                ) by {
                    if j < k {
                        assert(batch@[j].off + batch@[j].len <= batch@[k as int].off);
                        assert(buf@[i] == prev[i]);
                    } else {
                        assert(buf@[i] == parts@[k as int]@[i - batch@[k as int].off]);
                    }
                }
                assert forall|i: int|
                    0 <= i < before.len() && (forall|j: int|
                        0 <= j < k + 1 ==> !(#[trigger] batch@[j]).holds(
                            i,
                        )) implies buf@[i] == before[i] by {
                    assert(!batch@[k as int].holds(i));
                    assert(buf@[i] == prev[i]);
                }
            }
            k = k + 1;
        }
        Ok(())
    }

    /// All is as in `o`; the device was at most read.
    pub open spec fn unchanged(self, o: Self) -> bool {
        &&& self.inv()
        &&& self.same_rest(o)
        &&& self.fat_cache == o.fat_cache
        &&& self.device.disk() == o.device.disk()
    }

    /// What holds while `chain` is read: the bytes up to `from` are in `buf`, and the
    /// runs in `batch` have those from `from` to `done`.
    pub open spec fn reading(
        self,
        chain: Seq<u32>,
        offset: int,
        before: Seq<u8>,
        buf: Seq<u8>,
        batch: Seq<ReadRun>,
        done: int,
    ) -> bool {
        let good = forall|k: int| 0 <= k < chain.len() ==> 2 <= #[trigger] chain[k];
        &&& buf.len() == before.len()
        &&& 0 <= done <= buf.len()
        &&& forall|k: int|
            0 <= k < batch.len() ==> (#[trigger] batch[k]).len == batch[k].count * 512
                && batch[k].off + batch[k].len <= done
        &&& forall|j: int, k: int|
            #![trigger batch[j], batch[k]]
            0 <= j < k < batch.len() ==> batch[j].off + batch[j].len <= batch[k].off
        &&& good ==> forall|k: int, i: int|
            #![trigger batch[k].holds(i)]
            0 <= k < batch.len() && batch[k].holds(i) ==> self.device.disk()(
                batch[k].lba * 512 + (i - batch[k].off),
            ) == self.chain_byte(chain, offset + i)
        &&& good ==> forall|i: int|
            0 <= i < done && (forall|k: int| 0 <= k < batch.len() ==> !(#[trigger] batch[k]).holds(i))
                ==> #[trigger] buf[i] == self.chain_byte(chain, offset + i)
        &&& forall|i: int| done <= i < before.len() ==> #[trigger] buf[i] == before[i]
    }

    proof fn lemma_reading_push(
        self,
        chain: Seq<u32>,
        offset: int,
        before: Seq<u8>,
        buf: Seq<u8>,
        batch: Seq<ReadRun>,
        done: int,
        ci: int,
        n: int,
        run: ReadRun,
    )
        requires
            self.bpb.wf(),
            self.reading(chain, offset, before, buf, batch, done),
            is_run(chain, ci, n),
            n > 0,
            0 <= done,
            offset + done == ci * self.bpb.byts_per_clus,
            run.lba == self.bpb.lba_of(chain[ci] as int),
            run.off == done,
            run.len == n * self.bpb.byts_per_clus,
            run.len == run.count * 512,
            done + run.len <= buf.len(),
        ensures
            self.reading(chain, offset, before, buf, batch.push(run), done + run.len),
    {
        let cs = self.bpb.byts_per_clus as int;
        let next = batch.push(run);
        let good = forall|k: int| 0 <= k < chain.len() ==> 2 <= #[trigger] chain[k];
        assert forall|j: int, k: int|
            #![trigger next[j], next[k]]
            0 <= j < k < next.len() implies next[j].off + next[j].len <= next[k].off by {
            if k == batch.len() {
                assert(next[j] == batch[j]);
            } else {
                assert(next[j] == batch[j] && next[k] == batch[k]);
            }
        }
        if good {
            self.lemma_run_bytes(chain, ci, n);
            let a = io::disk_range(self.device.disk(), run.lba * 512, n * cs);
            let b = self.chain_range(chain, ci * cs, n * cs);
            assert forall|k: int, i: int|
                #![trigger next[k].holds(i)]
                0 <= k < next.len() && next[k].holds(i) implies self.device.disk()(
                next[k].lba * 512 + (i - next[k].off),
            ) == self.chain_byte(chain, offset + i) by {
                if k == batch.len() {
                    assert(a[i - done] == b[i - done]);
                } else {
                    assert(batch[k].holds(i));
                }
            }
            assert forall|i: int|
                0 <= i < done + run.len && (forall|k: int|
                    0 <= k < next.len() ==> !(#[trigger] next[k]).holds(i)) implies #[trigger] buf[i]
                == self.chain_byte(chain, offset + i) by {
                assert(!next[batch.len() as int].holds(i));
                assert forall|k: int| 0 <= k < batch.len() implies !(#[trigger] batch[k]).holds(
                    i,
                ) by {
                    assert(next[k] == batch[k]);
                }
            }
        }
    }

    proof fn lemma_reading_copy(
        self,
        chain: Seq<u32>,
        offset: int,
        before: Seq<u8>,
        buf: Seq<u8>,
        done: int,
        ci: int,
        n: int,
        skip: int,
        want: int,
        run: Seq<u8>,
        next: Seq<u8>,
    )
        requires
            self.bpb.wf(),
            self.reading(chain, offset, before, buf, Seq::empty(), done),
            is_run(chain, ci, n),
            n > 0,
            0 <= done,
            0 <= skip,
            0 <= want,
            skip + want <= n * self.bpb.byts_per_clus,
            offset + done == ci * self.bpb.byts_per_clus + skip,
            run == io::disk_range(
                self.device.disk(),
                self.bpb.lba_of(chain[ci] as int) * 512,
                n * self.bpb.byts_per_clus,
            ),
            done + want <= buf.len(),
            next == bytes::splice(buf, done, run.subrange(skip, skip + want)),
        ensures
            self.reading(chain, offset, before, next, Seq::empty(), done + want),
    {
        let cs = self.bpb.byts_per_clus as int;
        let good = forall|k: int| 0 <= k < chain.len() ==> 2 <= #[trigger] chain[k];
        let none: Seq<ReadRun> = Seq::empty();
        if good {
            self.lemma_run_bytes(chain, ci, n);
            let b = self.chain_range(chain, ci * cs, n * cs);
            assert forall|i: int|
                0 <= i < done + want && (forall|k: int|
                    0 <= k < none.len() ==> !(#[trigger] none[k]).holds(i)) implies #[trigger] next[i]
                == self.chain_byte(chain, offset + i) by {
                if i >= done {
                    assert(next[i] == run[skip + (i - done)]);
                    assert(b[skip + (i - done)] == self.chain_byte(
                        chain,
                        ci * cs + (skip + (i - done)),
                    ));
                } else {
                    assert(next[i] == buf[i]);
                }
            }
        }
    }

    /// Submits what is pending, after which nothing is.
    fn flush_pending(
        &mut self,
        chain: Ghost<Seq<u32>>,
        offset: Ghost<int>,
        before: Ghost<Seq<u8>>,
        done: Ghost<int>,
        batch: &mut Vec<ReadRun>,
        buf: &mut [u8],
    ) -> (r: Result<(), VfsError>)
        requires
            old(self).inv(),
            old(self).reading(chain@, offset@, before@, old(buf)@, old(batch)@, done@),
        ensures
            final(self).unchanged(*old(self)),
            final(buf)@.len() == old(buf)@.len(),
            match r {
                Ok(_) => final(batch)@ == Seq::<ReadRun>::empty() && final(self).reading(
                    chain@,
                    offset@,
                    before@,
                    final(buf)@,
                    Seq::empty(),
                    done@,
                ),
                Err(e) => e == VfsError::IOError && final(self).faults() > old(self).faults(),
            },
    {
        let ghost prev = buf@;
        let ghost pending = batch@;
        match self.flush_reads(batch, buf) {
            Ok(_) => {},
            Err(e) => return Err(e),
        }
        proof {
            let m = *self;
            let c = chain@;
            let none: Seq<ReadRun> = Seq::empty();
            let good = forall|k: int| 0 <= k < c.len() ==> 2 <= #[trigger] c[k];
            assert forall|p: int| #[trigger] m.chain_byte(c, p) == old(self).chain_byte(c, p) by {}
            if good {
                assert forall|i: int|
                    0 <= i < done@ && (forall|k: int|
                        0 <= k < none.len() ==> !(#[trigger] none[k]).holds(
                            i,
                        )) implies #[trigger] buf@[i] == m.chain_byte(c, offset@ + i) by {
                    if exists|k: int| 0 <= k < pending.len() && (#[trigger] pending[k]).holds(i) {
                        let k = choose|k: int|
                            0 <= k < pending.len() && (#[trigger] pending[k]).holds(i);
                        assert(pending[k].holds(i));
                    } else {
                        assert(buf@[i] == prev[i]);
                    }
                }
            }
            assert forall|i: int| done@ <= i < before@.len() implies #[trigger] buf@[i]
                == before@[i] by {
                assert forall|k: int| 0 <= k < pending.len() implies !(#[trigger] pending[k]).holds(
                    i,
                ) by {
                    assert(pending[k].off + pending[k].len <= done@);
                }
                assert(buf@[i] == prev[i]);
            }
        }
        batch.clear();
        Ok(())
    }

    /// How many clusters one request reads at most, where `rest` bytes are still wanted from
    /// byte `skip` of the first cluster on: those that hold the bytes, as far as the size of
    /// a request allows.
    pub open spec fn read_limit(self, rest: int, skip: int) -> int {
        let cs = self.bpb.byts_per_clus as int;
        let needed = (rest + skip + cs - 1) / cs;
        let most = MAX_RUN_BYTES as int / cs;
        let cap = if most < 1 {
            1
        } else {
            most
        };
        if needed < cap {
            needed
        } else {
            cap
        }
    }

    /// How many clusters one request reads from `ci` on, where `rest` bytes are still
    /// wanted from byte `skip` of the first cluster on: as many as follow one another, up
    /// to the limit.
    fn read_run(&self, chain: &Vec<u32>, ci: usize, rest: u64, skip: u64) -> (r: usize)
        requires
            self.bpb.wf(),
            ci < chain@.len(),
            rest >= 1,
            rest <= 0x1_0000_0000,
            skip < self.bpb.byts_per_clus,
        ensures
            1 <= r <= self.read_limit(rest as int, skip as int),
            is_run(chain@, ci as int, r as int),
            r == self.read_limit(rest as int, skip as int) || ci + r == chain@.len() || chain@[ci
                + r] != chain@[ci + r - 1] + 1,
            r * self.bpb.byts_per_clus <= 0x4_0000,
            (r - 1) * self.bpb.byts_per_clus < rest + skip,
    {
        let cs: u64 = self.bpb.byts_per_clus as u64;
        let needed: u64 = (rest + skip + cs - 1) / cs;
        let most: u64 = MAX_RUN_BYTES / cs;
        let cap: u64 = if most < 1 {
            1
        } else {
            most
        };
        let ghost x = rest + skip + cs - 1;
        proof {
            vstd::arithmetic::div_mod::lemma_fundamental_div_mod(x, cs as int);
        }
        let ghost left = x % (cs as int);
        assert(needed >= 1) by (nonlinear_arith)
            requires
                x >= cs,
                x == cs * needed + left,
                0 <= left < cs,
        ;
        let limit: u64 = if needed < cap {
            needed
        } else {
            cap
        };
        let r: usize = run_length(chain, ci, limit);
        assert(r * cs <= 0x4_0000) by (nonlinear_arith)
            requires
                r <= cap,
                cap == (if most < 1 {
                    1u64
                } else {
                    most
                }),
                most == MAX_RUN_BYTES / cs,
                1 <= cs <= 0x1_0000,
                MAX_RUN_BYTES == 258048,
        ;
        assert((r - 1) * cs < rest + skip) by (nonlinear_arith)
            requires
                1 <= r <= needed,
                x == rest + skip + cs - 1,
                x == cs * needed + left,
                0 <= left < cs,
        ;
        r
    }

    /// Reads `total` bytes from `offset` on of what the clusters of `chain` hold, or as
    /// many as they have, into `buf`.
    pub fn read_chain(
        &mut self,
        chain: &Vec<u32>,
        offset: u64,
        total: usize,
        buf: &mut [u8],
    ) -> (r: Result<usize, VfsError>)
        requires
            old(self).inv(),
            total <= old(buf)@.len(),
            offset + total <= 0x1_0000_0000,
        ensures
            final(self).unchanged(*old(self)),
            final(buf)@.len() == old(buf)@.len(),
            match r {
                Ok(n) => n == old(self).chain_avail(chain@, offset as int, total as int) && ((
                forall|k: int| 0 <= k < chain@.len() ==> 2 <= #[trigger] chain@[k])
                    ==> final(buf)@.subrange(0, n as int) == old(self).chain_range(
                    chain@,
                    offset as int,
                    n as int,
                )) && final(buf)@.subrange(n as int, old(buf)@.len() as int) == old(buf)@.subrange(
                    n as int,
                    old(buf)@.len() as int,
                ),
                Err(e) => e == VfsError::IOError && final(self).faults() > old(self).faults(),
            },
    {
        let cs: u64 = self.bpb.byts_per_clus as u64;
        let ghost o = *self;
        let ghost before = buf@;
        let mut batch: Vec<ReadRun> = Vec::new();
        assert(offset / cs <= 0x80_0000) by (nonlinear_arith)
            requires
                offset <= 0x1_0000_0000,
                cs >= 512,
        ;
        let mut ci: usize = (offset / cs) as usize;
        let mut clus_off: u64 = offset % cs;
        let mut done: usize = 0;
        proof {
            vstd::arithmetic::div_mod::lemma_fundamental_div_mod(offset as int, cs as int);
            assert(offset == ci * cs + clus_off) by (nonlinear_arith)
                requires
                    offset == cs * (offset / cs) + offset % cs,
                    ci == offset / cs,
                    clus_off == offset % cs,
            ;
        }
        while done < total && ci < chain.len()
            invariant
                o == *old(self),
                before == old(buf)@,
                cs == o.bpb.byts_per_clus,
                self.unchanged(o),
                total <= before.len(),
                offset + total <= 0x1_0000_0000,
                done <= total,
                clus_off < cs,
                done < total ==> offset + done == ci * cs + clus_off,
                done < total && done > 0 ==> clus_off == 0 && ci <= chain@.len(),
                done == total ==> offset + total <= chain@.len() * cs || total == 0,
                o.reading(chain@, offset as int, before, buf@, batch@, done as int),
            decreases total - done,
        {
            assert(buf@.len() == buf.len());
            let rest: u64 = (total - done) as u64;
            let run_len: usize = self.read_run(chain, ci, rest, clus_off);
            let run_bytes: u64 = run_len as u64 * cs;
            assert(run_bytes >= cs) by (nonlinear_arith)
                requires
                    run_len >= 1,
                    run_bytes == run_len * cs,
            ;
            let avail: u64 = run_bytes - clus_off;
            let want: u64 = if rest < avail {
                rest
            } else {
                avail
            };
            let run_lba: u64 = self.bpb.cluster_to_lba(chain[ci]);
            let ghost ci0 = ci as int;
            let ghost done0 = done as int;
            assert((ci0 + run_len) * cs == ci0 * cs + run_bytes) by (nonlinear_arith)
                requires
                    run_bytes == run_len * cs,
            ;
            assert((ci0 + run_len) * cs <= chain@.len() * cs) by (nonlinear_arith)
                requires
                    ci0 + run_len <= chain@.len(),
                    cs >= 0,
            ;
            let ghost secs = run_len * self.bpb.sec_per_clus;
            assert(run_bytes == 512 * secs) by (nonlinear_arith)
                requires
                    run_bytes == run_len * cs,
                    cs == 512 * self.bpb.sec_per_clus,
                    secs == run_len * self.bpb.sec_per_clus,
            ;
            if clus_off == 0 && want == run_bytes {
                let run = ReadRun {
                    lba: run_lba,
                    count: (want / 512) as u32,
                    off: done,
                    len: want as usize,
                };
                proof {
                    o.lemma_reading_push(
                        chain@,
                        offset as int,
                        before,
                        buf@,
                        batch@,
                        done as int,
                        ci0,
                        run_len as int,
                        run,
                    );
                }
                batch.push(run);
                done = done + want as usize;
                ci = ci + run_len;
                let partial_next = if done >= total || ci >= chain.len() {
                    true
                } else {
                    let left: u64 = (total - done) as u64;
                    let next_len: usize = self.read_run(chain, ci, left, 0);
                    left < next_len as u64 * cs
                };
                if batch.len() >= MAX_BATCH || partial_next {
                    match self.flush_pending(
                        Ghost(chain@),
                        Ghost(offset as int),
                        Ghost(before),
                        Ghost(done as int),
                        &mut batch,
                        buf,
                    ) {
                        Ok(_) => {},
                        Err(e) => return Err(e),
                    }
                    proof {
                        lemma_reading_same(o, *self, chain@, offset as int, before, buf@, done as int);
                    }
                }
            } else {
                match self.flush_pending(
                    Ghost(chain@),
                    Ghost(offset as int),
                    Ghost(before),
                    Ghost(done as int),
                    &mut batch,
                    buf,
                ) {
                    Ok(_) => {},
                    Err(e) => return Err(e),
                }
                proof {
                    lemma_reading_same(o, *self, chain@, offset as int, before, buf@, done as int);
                }
                let run_buf: Vec<u8> = match read_sectors(
                    &mut self.device,
                    run_lba,
                    (run_bytes / 512) as u32,
                ) {
                    Ok(v) => v,
                    Err(e) => return Err(e),
                };
                let ghost prev = buf@;
                let part = slice_subrange(
                    run_buf.as_slice(),
                    clus_off as usize,
                    (clus_off + want) as usize,
                );
                copy_at(buf, done, part);
                proof {
                    o.lemma_reading_copy(
                        chain@,
                        offset as int,
                        before,
                        prev,
                        done as int,
                        ci0,
                        run_len as int,
                        clus_off as int,
                        want as int,
                        run_buf@,
                        buf@,
                    );
                }
                done = done + want as usize;
                ci = ci + run_len;
                clus_off = 0;
            }
        }
        match self.flush_pending(
            Ghost(chain@),
            Ghost(offset as int),
            Ghost(before),
            Ghost(done as int),
            &mut batch,
            buf,
        ) {
            Ok(_) => {},
            Err(e) => return Err(e),
        }
        proof {
            lemma_reading_same(o, *self, chain@, offset as int, before, buf@, done as int);
            let n = done as int;
            let none: Seq<ReadRun> = Seq::empty();
            let good = forall|k: int| 0 <= k < chain@.len() ==> 2 <= #[trigger] chain@[k];
            if good {
                assert forall|i: int| 0 <= i < n implies buf@[i] == o.chain_byte(
                    chain@,
                    offset + i,
                ) by {
                    assert(forall|k: int|
                        0 <= k < none.len() ==> !(#[trigger] none[k]).holds(i));
                }
                assert(buf@.subrange(0, n) =~= o.chain_range(chain@, offset as int, n));
            }
            assert(buf@.subrange(n, before.len() as int) =~= before.subrange(
                n,
                before.len() as int,
            ));
            if done < total {
                assert(chain@.len() * cs <= ci * cs) by (nonlinear_arith)
                    requires
                        chain@.len() <= ci,
                        cs >= 0,
                ;
                if done > 0 {
                    assert(ci == chain@.len());
                }
            }
        }
        Ok(done)
    }
}

/// What was read does not depend on anything but the contents of the device.
proof fn lemma_reading_same<D: BlockDevice>(
    o: Fat32SuperBlock<D>,
    m: Fat32SuperBlock<D>,
    chain: Seq<u32>,
    offset: int,
    before: Seq<u8>,
    buf: Seq<u8>,
    done: int,
)
    requires
        m.unchanged(o),
        m.reading(chain, offset, before, buf, Seq::empty(), done),
    ensures
        o.reading(chain, offset, before, buf, Seq::empty(), done),
{
    assert forall|p: int| #[trigger] m.chain_byte(chain, p) == o.chain_byte(chain, p) by {}
}

/// A run of sectors to be read, and where its bytes go.
pub struct ReadRun {
    pub lba: u64,
    pub count: u32,
    pub off: usize,
    pub len: usize,
}

impl ReadRun {
    pub open spec fn holds(self, i: int) -> bool {
        self.off <= i < self.off + self.len
    }
}

} // verus!
