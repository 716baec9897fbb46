//! Whole-sector transfers between a device and memory.

use vstd::prelude::*;
use vstd::slice::slice_to_vec;

use crate::blockdriver::traits;
use crate::blockdriver::traits::{BlockDevice, IoBuffer, IoRequest};
use crate::vfs::VfsError;

verus! {

pub const SECTOR_SIZE: usize = 512;

/// The `len` bytes of `d` from position `pos` on.
pub open spec fn disk_range(d: spec_fn(int) -> u8, pos: int, len: int) -> Seq<u8> {
    Seq::new(len as nat, |i: int| d(pos + i))
}

/// `d` with `data` written over it from position `pos` on.
pub open spec fn disk_write(d: spec_fn(int) -> u8, pos: int, data: Seq<u8>) -> spec_fn(int) -> u8 {
    |p: int|
        if pos <= p < pos + data.len() {
            data[p - pos]
        } else {
            d(p)
        }
}

/// The two hold the same bytes at every position outside `lo..hi`.
pub open spec fn same_outside(
    a: spec_fn(int) -> u8,
    b: spec_fn(int) -> u8,
    lo: int,
    hi: int,
) -> bool {
    forall|p: int| !(lo <= p < hi) ==> #[trigger] a(p) == b(p)
}

/// `a` is the device `b` at a later time: it is the same but for its contents, and has
/// failed at least as often.
pub open spec fn same_device<D: BlockDevice>(a: D, b: D) -> bool {
    a.sectors() == b.sectors() && a.sector_len() == b.sector_len() && traits::faults(b)
        <= traits::faults(a)
}

/// Reads `count` sectors from sector `lba` on.
pub fn read_sectors<D: BlockDevice>(device: &mut D, lba: u64, count: u32) -> (r: Result<
    Vec<u8>,
    VfsError,
>)
    requires
        old(device).sector_len() == SECTOR_SIZE,
        count * SECTOR_SIZE <= usize::MAX,
    ensures
        same_device(*final(device), *old(device)),
        final(device).disk() == old(device).disk(),
        traits::one_more(old(device).answers(), final(device).answers()),
        match r {
            Ok(v) => v@ == disk_range(old(device).disk(), lba * 512, count * 512)
                && traits::carried_out(final(device).answers().last()) && traits::faults(
                *final(device),
            ) == traits::faults(*old(device)),
            Err(e) => e == VfsError::IOError && !traits::carried_out(
                final(device).answers().last(),
            ) && traits::faults(*final(device)) > traits::faults(*old(device)),
        },
{
    let buf: Vec<u8> = vec![0u8; count as usize * SECTOR_SIZE];
    let mut reqs: Vec<IoRequest> = Vec::new();
    reqs.push(IoRequest { lba, count, buffer: IoBuffer::Buf(buf), is_write: false });
    let ghost rq = reqs@;
    let res = device.submit(&mut reqs);
    proof {
        traits::lemma_failures_push(old(device).answers(), res);
    }
    assert(device.disk() =~= old(device).disk());
    let ghost done = reqs@;
    match res {
        Ok(c) => {
            if !c.all_ok() {
                return Err(VfsError::IOError);
            }
            match reqs.pop() {
                Some(IoRequest { lba: _, count: _, buffer: IoBuffer::Buf(v), is_write: _ }) => {
                    assert forall|k: int| 0 <= k < count * 512 implies v@[k] == old(device).disk()(
                        lba * 512 + k,
                    ) by {
                        assert(v@[k] == traits::payload(done[0].buffer)[k]);
                        assert(traits::same_request(rq[0], done[0]));
                    }
                    assert(v@ =~= disk_range(old(device).disk(), lba * 512, count * 512));
                    Ok(v)
                },
                _ => {
                    assert(traits::same_request(rq[0], done[0]));
                    assert(false);
                    Err(VfsError::IOError)
                },
            }
        },
        Err(_) => Err(VfsError::IOError),
    }
}

/// Writes `buf` over the `count` sectors from sector `lba` on.
pub fn write_sectors<D: BlockDevice>(device: &mut D, lba: u64, count: u32, buf: &[u8]) -> (r:
    Result<(), VfsError>)
    requires
        old(device).sector_len() == SECTOR_SIZE,
        buf@.len() == count * SECTOR_SIZE,
    ensures
        same_device(*final(device), *old(device)),
        same_outside(
            final(device).disk(),
            old(device).disk(),
            lba * 512,
            (lba + count) * 512,
        ),
        traits::one_more(old(device).answers(), final(device).answers()),
        match r {
            Ok(_) => final(device).disk() == disk_write(old(device).disk(), lba * 512, buf@)
                && traits::carried_out(final(device).answers().last()) && traits::faults(
                *final(device),
            ) == traits::faults(*old(device)),
            Err(e) => e == VfsError::IOError && !traits::carried_out(
                final(device).answers().last(),
            ) && traits::faults(*final(device)) > traits::faults(*old(device)),
        },
{
    let mut reqs: Vec<IoRequest> = Vec::new();
    reqs.push(
        IoRequest { lba, count, buffer: IoBuffer::ConstBuf(slice_to_vec(buf)), is_write: true },
    );
    let ghost rq = reqs@;
    let res = device.submit(&mut reqs);
    proof {
        traits::lemma_failures_push(old(device).answers(), res);
    }
    assert(forall|p: int| #[trigger] traits::covers(rq[0], 512, p) <==> lba * 512 <= p < (lba + count) * 512);
    match res {
        Ok(c) => {
            if !c.all_ok() {
                return Err(VfsError::IOError);
            }
            assert(device.disk() =~= disk_write(old(device).disk(), lba * 512, buf@)) by {
                assert forall|p: int| #[trigger] device.disk()(p)
                    == disk_write(old(device).disk(), lba * 512, buf@)(p) by {
                    assert(traits::covers(rq[0], 512, p) <==> lba * 512 <= p < (lba + count) * 512);
                }
            }
            Ok(())
        },
        Err(_) => Err(VfsError::IOError),
    }
}

/// A run of sectors and the bytes to be stored in them.
pub struct SectorRun {
    pub lba: u64,
    pub count: u32,
    pub data: Vec<u8>,
}

impl SectorRun {
    pub open spec fn wf(self) -> bool {
        self.data@.len() == self.count * 512
    }

    pub open spec fn holds(self, pos: int) -> bool {
        self.lba * 512 <= pos < (self.lba + self.count) * 512
    }
}

/// `d` after the runs are written one after the other.
pub open spec fn write_runs(d: spec_fn(int) -> u8, runs: Seq<SectorRun>) -> spec_fn(int) -> u8
    decreases runs.len(),
{
    if runs.len() == 0 {
        d
    } else {
        disk_write(write_runs(d, runs.drop_last()), runs.last().lba * 512, runs.last().data@)
    }
}

/// No position lies in two of the runs.
pub open spec fn disjoint_runs(runs: Seq<SectorRun>) -> bool {
    forall|i: int, j: int|
        #![trigger runs[i], runs[j]]
        0 <= i < j < runs.len() ==> runs[i].lba + runs[i].count <= runs[j].lba || runs[j].lba
            + runs[j].count <= runs[i].lba
}

proof fn lemma_write_runs_at(d: spec_fn(int) -> u8, runs: Seq<SectorRun>, pos: int)
    requires
        forall|i: int| 0 <= i < runs.len() ==> (#[trigger] runs[i]).wf(),
    ensures
        (forall|i: int| 0 <= i < runs.len() ==> !(#[trigger] runs[i]).holds(pos)) ==> write_runs(
            d,
            runs,
        )(pos) == d(pos),
        forall|i: int|
            0 <= i < runs.len() && (#[trigger] runs[i]).holds(pos) && disjoint_runs(runs)
                ==> write_runs(d, runs)(pos) == runs[i].data@[pos - runs[i].lba * 512],
    decreases runs.len(),
{
    if runs.len() > 0 {
        let head = runs.drop_last();
        lemma_write_runs_at(d, head, pos);
        assert(forall|i: int| 0 <= i < head.len() ==> #[trigger] head[i] == runs[i]);
        assert(runs.last() == runs[runs.len() - 1]);
        assert(runs.last().wf());
        if forall|i: int| 0 <= i < runs.len() ==> !(#[trigger] runs[i]).holds(pos) {
            assert(!runs.last().holds(pos));
            assert forall|i: int| 0 <= i < head.len() implies !(#[trigger] head[i]).holds(pos) by {
                assert(!runs[i].holds(pos));
            }
        }
        assert forall|i: int|
            0 <= i < runs.len() && (#[trigger] runs[i]).holds(pos) && disjoint_runs(
                runs,
            ) implies write_runs(d, runs)(pos) == runs[i].data@[pos - runs[i].lba * 512] by {
            if i < runs.len() - 1 {
                assert(head[i].holds(pos));
                assert(disjoint_runs(head)) by {
                    assert forall|a: int, b: int|
                        #![trigger head[a], head[b]]
                        0 <= a < b < head.len() implies head[a].lba + head[a].count <= head[b].lba
                        || head[b].lba + head[b].count <= head[a].lba by {
                        assert(head[a] == runs[a] && head[b] == runs[b]);
                    }
                }
                let last = runs[runs.len() - 1];
                assert(runs[i].lba + runs[i].count <= last.lba || last.lba + last.count
                    <= runs[i].lba);
            }
        }
    }
}

/// Writes all runs in one submission.
pub fn write_sectors_batch<D: BlockDevice>(device: &mut D, runs: &Vec<SectorRun>) -> (r: Result<
    (),
    VfsError,
>)
    requires
        old(device).sector_len() == SECTOR_SIZE,
        forall|i: int| 0 <= i < runs@.len() ==> (#[trigger] runs@[i]).wf(),
    ensures
        same_device(*final(device), *old(device)),
        forall|pos: int|
            (forall|i: int| 0 <= i < runs@.len() ==> !(#[trigger] runs@[i]).holds(pos))
                ==> #[trigger] final(device).disk()(pos) == old(device).disk()(pos),
        match r {
            Ok(_) => disjoint_runs(runs@) ==> final(device).disk() == write_runs(
                old(device).disk(),
                runs@,
            ),
            Err(e) => e == VfsError::IOError && runs@.len() > 0 && traits::faults(*final(device))
                > traits::faults(*old(device)),
        },
{
    if runs.len() == 0 {
        return Ok(());
    }
    let mut reqs: Vec<IoRequest> = Vec::new();
    let mut i: usize = 0;
    while i < runs.len()
        invariant
            i <= runs@.len(),
            reqs@.len() == i,
            forall|k: int|
                0 <= k < i ==> {
                    let q = #[trigger] reqs@[k];
                    q.lba == runs@[k].lba && q.count == runs@[k].count && q.is_write
                        && q.buffer is ConstBuf && traits::payload(q.buffer) == runs@[k].data@
                },
        decreases runs@.len() - i,
    {
        let data = slice_to_vec(runs[i].data.as_slice());
        reqs.push(
            IoRequest {
                lba: runs[i].lba,
                count: runs[i].count,
                buffer: IoBuffer::ConstBuf(data),
                is_write: true,
            },
        );
        i = i + 1;
    }
    let ghost rq = reqs@;
    let res = device.submit(&mut reqs);
    proof {
        traits::lemma_failures_push(old(device).answers(), res);
    }
    proof {
        assert forall|k: int, p: int| 0 <= k < rq.len() implies (#[trigger] traits::covers(
            rq[k],
            512,
            p,
        ) <==> runs@[k].holds(p)) by {}
        assert forall|pos: int|
            (forall|k: int|
                0 <= k < runs@.len() ==> !(#[trigger] runs@[k]).holds(
                    pos,
                )) implies #[trigger] device.disk()(pos) == old(device).disk()(pos) by {
            if traits::written_by(rq, 512, pos) {
                let k = choose|k: int|
                    0 <= k < rq.len() && rq[k].is_write && #[trigger] traits::covers(
                        rq[k],
                        512,
                        pos,
                    );
                assert(runs@[k].holds(pos));
            }
        }
    }
    match res {
        Ok(c) => {
            if !c.all_ok() {
                return Err(VfsError::IOError);
            }
            proof {
                if disjoint_runs(runs@) {
                    assert forall|pos: int| #[trigger] device.disk()(pos) == write_runs(
                        old(device).disk(),
                        runs@,
                    )(pos) by {
                        lemma_write_runs_at(old(device).disk(), runs@, pos);
                        if exists|k: int| 0 <= k < runs@.len() && (#[trigger] runs@[k]).holds(pos) {
                            let k = choose|k: int|
                                0 <= k < runs@.len() && (#[trigger] runs@[k]).holds(pos);
                            assert(traits::covers(rq[k], 512, pos));
                            assert forall|j: int|
                                0 <= j < rq.len() && j != k && rq[j].is_write implies !traits::covers(
                                rq[j],
                                512,
                                pos,
                            ) by {
                                assert(runs@[j].lba + runs@[j].count <= runs@[k].lba || runs@[k].lba
                                    + runs@[k].count <= runs@[j].lba);
                            }
                        }
                    }
                    assert(device.disk() =~= write_runs(old(device).disk(), runs@));
                }
            }
            Ok(())
        },
        Err(_) => Err(VfsError::IOError),
    }
}

/// Reads the runs of `count` sectors from `lba` on that `runs` names as
/// `(lba, count)`, in one submission.
pub fn read_sectors_batch<D: BlockDevice>(device: &mut D, runs: &Vec<(u64, u32)>) -> (r: Result<
    Vec<Vec<u8>>,
    VfsError,
>)
    requires
        old(device).sector_len() == SECTOR_SIZE,
        forall|i: int| 0 <= i < runs@.len() ==> (#[trigger] runs@[i]).1 * 512 <= usize::MAX,
    ensures
        same_device(*final(device), *old(device)),
        final(device).disk() == old(device).disk(),
        match r {
            Ok(v) => v@.len() == runs@.len() && forall|i: int|
                0 <= i < runs@.len() ==> (#[trigger] v@[i])@ == disk_range(
                    old(device).disk(),
                    runs@[i].0 * 512,
                    runs@[i].1 * 512,
                ),
            Err(e) => e == VfsError::IOError && runs@.len() > 0 && traits::faults(*final(device))
                > traits::faults(*old(device)),
        },
{
    if runs.len() == 0 {
        return Ok(Vec::new());
    }
    let mut reqs: Vec<IoRequest> = Vec::new();
    let mut i: usize = 0;
    while i < runs.len()
        invariant
            i <= runs@.len(),
            reqs@.len() == i,
            forall|k: int| 0 <= k < runs@.len() ==> (#[trigger] runs@[k]).1 * 512 <= usize::MAX,
            forall|k: int|
                0 <= k < i ==> {
                    let q = #[trigger] reqs@[k];
                    q.lba == runs@[k].0 && q.count == runs@[k].1 && !q.is_write && q.buffer is Buf
                        && traits::payload(q.buffer).len() == runs@[k].1 * 512
                },
        decreases runs@.len() - i,
    {
        let (lba, count) = runs[i];
        assert(runs@[i as int].1 * 512 <= usize::MAX);
        let buf: Vec<u8> = vec![0u8; count as usize * SECTOR_SIZE];
        reqs.push(IoRequest { lba, count, buffer: IoBuffer::Buf(buf), is_write: false });
        i = i + 1;
    }
    let ghost rq = reqs@;
    let res = device.submit(&mut reqs);
    proof {
        traits::lemma_failures_push(old(device).answers(), res);
    }
    assert(forall|p: int| !#[trigger] traits::written_by(rq, 512, p));
    assert(device.disk() =~= old(device).disk());
    match res {
        Ok(c) => {
            if !c.all_ok() {
                return Err(VfsError::IOError);
            }
            let ghost done = reqs@;
            let mut rev: Vec<Vec<u8>> = Vec::new();
            let ghost n = rq.len() as int;
            let ghost d = old(device).disk();
            while reqs.len() > 0
                invariant
                    rev@.len() + reqs@.len() == n,
                    n == runs@.len() == done.len() == rq.len(),
                    reqs@ == done.subrange(0, reqs@.len() as int),
                    forall|k: int|
                        0 <= k < n ==> {
                            let q = #[trigger] rq[k];
                            q.lba == runs@[k].0 && q.count == runs@[k].1 && !q.is_write
                                && q.buffer is Buf && traits::payload(q.buffer).len() == runs@[k].1
                                * 512
                        },
                    traits::submit_frame(d, rq, 512, d, done),
                    traits::submit_done(d, rq, 512, d, done),
                    forall|p: int| !#[trigger] traits::written_by(rq, 512, p),
                    forall|k: int|
                        0 <= k < rev@.len() ==> (#[trigger] rev@[k])@ == disk_range(
                            d,
                            runs@[n - 1 - k].0 * 512,
                            runs@[n - 1 - k].1 * 512,
                        ),
                decreases reqs@.len(),
            {
                let ghost at = reqs@.len() - 1;
                match reqs.pop() {
                    Some(IoRequest { lba: _, count: _, buffer: IoBuffer::Buf(v), is_write: _ }) => {
                        proof {
                            assert(traits::same_request(rq[at], done[at]));
                            assert forall|k: int| 0 <= k < runs@[at].1 * 512 implies v@[k] == d(
                                runs@[at].0 * 512 + k,
                            ) by {
                                assert(v@[k] == traits::payload(done[at].buffer)[k]);
                            }
                            assert(v@ =~= disk_range(d, runs@[at].0 * 512, runs@[at].1 * 512));
                        }
                        rev.push(v);
                    },
                    _ => {
                        assert(traits::same_request(rq[at], done[at]));
                        assert(false);
                        return Err(VfsError::IOError);
                    },
                }
            }
            let mut out: Vec<Vec<u8>> = Vec::new();
            while rev.len() > 0
                invariant
                    rev@.len() + out@.len() == n,
                    n == runs@.len(),
                    forall|k: int|
                        0 <= k < rev@.len() ==> (#[trigger] rev@[k])@ == disk_range(
                            d,
                            runs@[n - 1 - k].0 * 512,
                            runs@[n - 1 - k].1 * 512,
                        ),
                    forall|k: int|
                        0 <= k < out@.len() ==> (#[trigger] out@[k])@ == disk_range(
                            d,
                            runs@[k].0 * 512,
                            runs@[k].1 * 512,
                        ),
                decreases rev@.len(),
            {
                match rev.pop() {
                    Some(v) => {
                        out.push(v);
                    },
                    None => {
                        assert(false);
                        return Err(VfsError::IOError);
                    },
                }
            }
            Ok(out)
        },
        Err(_) => Err(VfsError::IOError),
    }
}

} // verus!
