//! A cache of single sectors in front of a device.
//!
//! Reads of one sector go through the cache. Writes go to the device first, and a
//! write of one sector is remembered. Longer transfers, and transfers to physical
//! addresses, go straight to the device and leave the cache alone.

use crate::blockdriver::traits::{BlockDevice, IoBuffer, IoCompletions, IoRequest};
use crate::collections::SectorMap;
use vstd::prelude::*;

verus! {

/// Sectors in the cache at which room is made.
pub const CACHE_SIZE: usize = 4096;

/// Sectors that are left when room has been made.
pub const CACHE_TARGET: usize = 3072;

/// The sectors that were read or written last.
pub struct BlockCache {
    sectors: SectorMap,
    /// The sector numbers, in an order in which they are dropped.
    clock: Vec<u64>,
    clock_hand: usize,
}

/// The place of the hand, which starts over behind the last sector.
pub open spec fn hand_at(len: nat, hand: nat) -> nat {
    if hand >= len {
        0
    } else {
        hand
    }
}

/// The clock once sectors have been dropped until `target` are left. The last
/// sector takes the place of one that is dropped.
pub open spec fn evicted(clock: Seq<u64>, hand: nat, target: nat) -> Seq<u64>
    decreases clock.len(),
{
    if clock.len() <= target {
        clock
    } else {
        let h = hand_at(clock.len(), hand);
        evicted(clock.update(h as int, clock.last()).drop_last(), h, target)
    }
}

/// Where the hand stands once sectors have been dropped until `target` are left.
pub open spec fn hand_after(clock: Seq<u64>, hand: nat, target: nat) -> nat
    decreases clock.len(),
{
    if clock.len() <= target {
        hand
    } else {
        let h = hand_at(clock.len(), hand);
        hand_after(clock.update(h as int, clock.last()).drop_last(), h, target)
    }
}

/// Where the hand stands once there is room for one more sector.
pub open spec fn hand_with_room(clock: Seq<u64>, hand: nat) -> nat {
    if clock.len() < CACHE_SIZE {
        hand
    } else {
        hand_after(clock, hand, CACHE_TARGET as nat)
    }
}

/// The clock with room for one more sector.
pub open spec fn with_room(clock: Seq<u64>, hand: nat) -> Seq<u64> {
    if clock.len() < CACHE_SIZE {
        clock
    } else {
        evicted(clock, hand, CACHE_TARGET as nat)
    }
}

/// The sectors of `m` whose numbers stand in `clock`.
pub open spec fn restricted(m: Map<u64, Seq<u8>>, clock: Seq<u64>) -> Map<u64, Seq<u8>> {
    m.restrict(clock.to_set())
}

/// Dropping one sector from the clock takes its number, and no other, out of it.
proof fn lemma_swap_out(clock: Seq<u64>, h: int)
    requires
        clock.no_duplicates(),
        0 <= h < clock.len(),
    ensures
        clock.update(h, clock.last()).drop_last().no_duplicates(),
        clock.update(h, clock.last()).drop_last().to_set() == clock.to_set().remove(clock[h]),
{
    let next = clock.update(h, clock.last()).drop_last();
    assert forall|x: u64| next.to_set().contains(x) == clock.to_set().remove(clock[h]).contains(
        x,
    ) by {
        if next.contains(x) {
            let k = choose|k: int| 0 <= k < next.len() && next[k] == x;
            if k == h {
                assert(clock[clock.len() - 1] == x);
            } else {
                assert(clock[k] == x);
            }
        }
        if clock.contains(x) && x != clock[h] {
            let k = choose|k: int| 0 <= k < clock.len() && clock[k] == x;
            if k == clock.len() - 1 {
                assert(next[h] == x);
            } else {
                assert(next[k] == x);
            }
        }
    }
    assert(next.to_set() =~= clock.to_set().remove(clock[h]));
}

/// The request reads the sector `lba` into a buffer of its own.
pub open spec fn is_sector_read(req: IoRequest, lba: u64) -> bool {
    &&& req.lba == lba
    &&& req.count == 1
    &&& !req.is_write
    &&& req.buffer is Buf
    &&& crate::blockdriver::traits::payload(req.buffer).len() == 512
}

/// From `before` to `after`, the device was asked for the sector `lba`, and for nothing
/// else; `ok` says whether it carried that out.
pub open spec fn asked_for<D: BlockDevice>(before: D, after: D, lba: u64, ok: bool) -> bool {
    &&& exists|req: IoRequest| #[trigger]
        is_sector_read(req, lba) && after.requests() == before.requests().push(seq![req])
    &&& crate::blockdriver::traits::one_more(before.answers(), after.answers())
    &&& ok == crate::blockdriver::traits::carried_out(after.answers().last())
}

impl BlockCache {
    pub closed spec fn inv(self) -> bool {
        &&& self.clock@.no_duplicates()
        &&& self.clock@.to_set() == crate::collections::sector_map(self.sectors).dom()
    }

    /// The sectors that the cache holds.
    pub closed spec fn held(self) -> Map<u64, Seq<u8>> {
        crate::collections::sector_map(self.sectors)
    }

    pub closed spec fn order(self) -> Seq<u64> {
        self.clock@
    }

    pub closed spec fn hand(self) -> nat {
        self.clock_hand as nat
    }

    pub fn new() -> (r: Self)
        ensures
            r.inv(),
            r.held() == Map::<u64, Seq<u8>>::empty(),
            r.order() == Seq::<u64>::empty(),
            r.hand() == 0,
    {
        let r = BlockCache { sectors: SectorMap::new(), clock: Vec::new(), clock_hand: 0 };
        assert(r.clock@.to_set() =~= crate::collections::sector_map(r.sectors).dom());
        r
    }

    proof fn lemma_len(self)
        requires
            self.inv(),
        ensures
            self.held().dom().len() == self.order().len(),
    {
        self.clock@.unique_seq_to_set();
    }

    /// Makes room in a cache that is full.
    fn maybe_evict(&mut self)
        requires
            old(self).inv(),
        ensures
            final(self).inv(),
            final(self).order() == with_room(old(self).order(), old(self).hand()),
            final(self).hand() == hand_with_room(old(self).order(), old(self).hand()),
            final(self).held() == restricted(old(self).held(), final(self).order()),
    {
        proof {
            self.lemma_len();
            assert(restricted(self.held(), self.order()) =~= self.held());
        }
        if self.sectors.len() < CACHE_SIZE {
            return;
        }
        let target: usize = CACHE_SIZE - CACHE_SIZE / 4;
        while self.sectors.len() > target
            invariant
                self.inv(),
                old(self).inv(),
                target == CACHE_TARGET,
                evicted(self.order(), self.hand(), target as nat) == evicted(
                    old(self).order(),
                    old(self).hand(),
                    target as nat,
                ),
                hand_after(self.order(), self.hand(), target as nat) == hand_after(
                    old(self).order(),
                    old(self).hand(),
                    target as nat,
                ),
                self.held() == restricted(old(self).held(), self.order()),
                self.held().dom().len() == self.order().len(),
            decreases self.clock@.len(),
        {
            if self.clock_hand >= self.clock.len() {
                self.clock_hand = 0;
            }
            let ghost clock = self.clock@;
            let ghost h = self.clock_hand as int;
            let lba: u64 = self.clock[self.clock_hand];
            self.sectors.remove(lba);
            self.clock.swap_remove(self.clock_hand);
            proof {
                lemma_swap_out(clock, h);
                assert(self.held().dom() =~= self.clock@.to_set());
                assert(self.held() =~= restricted(old(self).held(), self.order()));
                self.lemma_len();
            }
        }
    }

    /// One sector, from the cache or from the device.
    fn read<D: BlockDevice>(&mut self, device: &mut D, lba: u64) -> (r: Result<[u8; 512], ()>)
        requires
            old(self).inv(),
        ensures
            final(self).inv(),
            crate::fat32::io::same_device(*final(device), *old(device)),
            final(device).disk() == old(device).disk(),
            old(self).held().contains_key(lba) ==> r is Ok && r->Ok_0@ == old(self).held()[lba]
                && *final(self) == *old(self) && *final(device) == *old(device),
            !old(self).held().contains_key(lba) ==> learned(
                *old(self),
                *final(self),
                lba,
                match r {
                    Ok(d) => Some(d@),
                    Err(_) => None,
                },
            ),
            !old(self).held().contains_key(lba) && r is Ok && old(device).sector_len() == 512
                ==> r->Ok_0@ == crate::fat32::io::disk_range(old(device).disk(), lba * 512, 512),
            !old(self).held().contains_key(lba) ==> asked_for(
                *old(device),
                *final(device),
                lba,
                r is Ok,
            ),
    {
        if let Some(d) = self.sectors.get(lba) {
            return Ok(d);
        }
        let mut buf: Vec<u8> = Vec::new();
        while buf.len() < 512
            invariant
                buf@.len() <= 512,
            decreases 512 - buf@.len(),
        {
            buf.push(0);
        }
        let mut reqs: Vec<IoRequest> = Vec::new();
        reqs.push(IoRequest { lba, count: 1, buffer: IoBuffer::Buf(buf), is_write: false });
        let ghost rq = reqs@;
        let res = device.submit(&mut reqs);
        proof {
            crate::blockdriver::traits::lemma_failures_push(old(device).answers(), res);
            assert(rq =~= seq![rq[0]]);
            assert(is_sector_read(rq[0], lba));
        }
        assert(device.disk() =~= old(device).disk());
        let ok: bool = match res {
            Ok(c) => c.all_ok(),
            Err(_) => false,
        };
        if !ok {
            return Err(());
        }
        let ghost done = reqs@;
        assert(crate::blockdriver::traits::same_request(rq[0], done[0]));
        let mut data: [u8; 512] = [0u8; 512];
        match reqs.pop() {
            Some(IoRequest { lba: _, count: _, buffer: IoBuffer::Buf(v), is_write: _ }) => {
                let mut i: usize = 0;
                while i < 512
                    invariant
                        i <= 512,
                        v@.len() == 512,
                        data@.len() == 512,
                        forall|k: int| 0 <= k < i ==> #[trigger] data@[k] == v@[k],
                    decreases 512 - i,
                {
                    data[i] = v[i];
                    i = i + 1;
                }
                assert(data@ =~= v@);
                assert(crate::blockdriver::traits::payload(done[0].buffer) == v@);
            },
            _ => {
                assert(false);
            },
        }
        proof {
            if old(device).sector_len() == 512 {
                assert forall|k: int| 0 <= k < 512 implies data@[k] == old(device).disk()(
                    lba * 512 + k,
                ) by {
                    assert(!crate::blockdriver::traits::written_by(rq, 512, lba * 512 + k));
                    assert(crate::blockdriver::traits::payload(done[0].buffer)[k] == data@[k]);
                }
                assert(data@ =~= crate::fat32::io::disk_range(
                    old(device).disk(),
                    lba * 512,
                    512,
                ));
            }
        }
        self.remember(lba, data);
        Ok(data)
    }

    /// Takes in a sector that the cache does not hold.
    fn remember(&mut self, lba: u64, data: [u8; 512])
        requires
            old(self).inv(),
            !old(self).held().contains_key(lba),
        ensures
            learned(*old(self), *final(self), lba, Some(data@)),
            final(self).inv(),
    {
        self.maybe_evict();
        let ghost mid = *self;
        self.sectors.insert(lba, data);
        self.clock.push(lba);
        proof {
            assert(!mid.held().contains_key(lba));
            assert(!mid.clock@.to_set().contains(lba));
            assert(self.clock@.no_duplicates()) by {
                assert forall|i: int, j: int|
                    0 <= i < self.clock@.len() && 0 <= j < self.clock@.len() && i
                        != j implies self.clock@[i] != self.clock@[j] by {
                    assert(mid.clock@.contains(lba) == mid.clock@.to_set().contains(lba));
                }
            }
            assert(self.clock@.to_set() =~= mid.clock@.to_set().insert(lba)) by {
                assert forall|x: u64| self.clock@.to_set().contains(x)
                    == mid.clock@.to_set().insert(lba).contains(x) by {
                    if mid.clock@.contains(x) {
                        let k = choose|k: int| 0 <= k < mid.clock@.len() && mid.clock@[k] == x;
                        assert(self.clock@[k] == x);
                    }
                    if x == lba {
                        assert(self.clock@[mid.clock@.len() as int] == x);
                    }
                    if self.clock@.contains(x) && x != lba {
                        let k = choose|k: int| 0 <= k < self.clock@.len() && self.clock@[k] == x;
                        assert(mid.clock@[k] == x);
                    }
                }
            }
            assert(self.held().dom() =~= mid.held().dom().insert(lba));
        }
    }
}

/// `after` is `before` with the sector `lba` taken in, once there is room for it;
/// or nothing has been taken in.
pub open spec fn learned(
    before: BlockCache,
    after: BlockCache,
    lba: u64,
    data: Option<Seq<u8>>,
) -> bool {
    match data {
        None => after == before,
        Some(d) => {
            let kept = with_room(before.order(), before.hand());
            &&& after.order() == kept.push(lba)
            &&& after.hand() == hand_with_room(before.order(), before.hand())
            &&& after.held() == restricted(before.held(), kept).insert(lba, d)
        },
    }
}

/// A device behind a cache.
pub struct CachedDevice<D: BlockDevice> {
    pub inner: D,
    pub cache: BlockCache,
}

/// The request goes straight to the device: one to physical addresses, and a read
/// of more than one sector.
pub open spec fn goes_through(req: IoRequest) -> bool {
    req.buffer is Phys || (!req.is_write && req.count > 1 && req.buffer is Buf)
}

/// The request has a buffer that it cannot use.
pub open spec fn is_misfit(req: IoRequest) -> bool {
    if req.is_write {
        req.buffer is Buf
    } else {
        req.buffer is ConstBuf
    }
}

/// The buffer of a read of one sector, once `data` has come in: as much of the
/// sector as the buffer holds.
pub open spec fn filled(buf: Seq<u8>, data: Seq<u8>) -> Seq<u8> {
    Seq::new(
        buf.len(),
        |i: int|
            if i < 512 {
                data[i]
            } else {
                buf[i]
            },
    )
}

/// What a write leaves in the cache: one sector of the right length is taken in,
/// or replaces what the cache holds of it.
pub open spec fn write_learned(
    before: BlockCache,
    after: BlockCache,
    lba: u64,
    count: u32,
    data: Seq<u8>,
) -> bool {
    if count <= 1 && data.len() == 512 {
        if before.held().contains_key(lba) {
            &&& after.held() == before.held().insert(lba, data)
            &&& after.order() == before.order()
            &&& after.hand() == before.hand()
        } else {
            learned(before, after, lba, Some(data))
        }
    } else {
        after == before
    }
}

impl<D: BlockDevice> CachedDevice<D> {
    pub open spec fn inv(self) -> bool {
        self.cache.inv()
    }

    /// The device has been asked to carry out `req`, which has become `done`;
    /// `ok` says that it reports success.
    pub open spec fn device_did(self, after: Self, req: IoRequest, ok: bool, done: IoRequest) -> bool {
        let ss = self.inner.sector_len() as int;
        &&& crate::fat32::io::same_device(after.inner, self.inner)
        &&& after.inner.requests() == self.inner.requests().push(seq![req])
        &&& crate::blockdriver::traits::one_more(self.inner.answers(), after.inner.answers())
        &&& ok == crate::blockdriver::traits::carried_out(after.inner.answers().last())
        &&& crate::blockdriver::traits::submit_frame(
            self.inner.disk(),
            seq![req],
            ss,
            after.inner.disk(),
            seq![done],
        )
        &&& ok ==> crate::blockdriver::traits::submit_done(
            self.inner.disk(),
            seq![req],
            ss,
            after.inner.disk(),
            seq![done],
        )
    }

    /// One request, `req`, has been served and has become `done`; `ok` says whether
    /// it succeeded.
    pub open spec fn served(self, after: Self, req: IoRequest, ok: bool, done: IoRequest) -> bool {
        if goes_through(req) {
            &&& after.cache == self.cache
            &&& self.device_did(after, req, ok, done)
        } else if is_misfit(req) {
            !ok && after == self && done == req
        } else if req.is_write {
            &&& crate::blockdriver::traits::same_request(req, done)
            &&& self.device_did(after, req, ok, done)
            &&& if ok {
                write_learned(
                    self.cache,
                    after.cache,
                    req.lba,
                    req.count,
                    crate::blockdriver::traits::payload(req.buffer),
                )
            } else {
                after.cache == self.cache
            }
        } else {
            self.sector_served(after, req, ok, done)
        }
    }

    /// A read of one sector has been served: from the cache where that holds the
    /// sector, and then always with success.
    pub open spec fn sector_served(
        self,
        after: Self,
        req: IoRequest,
        ok: bool,
        done: IoRequest,
    ) -> bool {
        &&& crate::fat32::io::same_device(after.inner, self.inner)
        &&& after.inner.disk() == self.inner.disk()
        &&& if self.cache.held().contains_key(req.lba) {
            &&& ok
            &&& after == self
            &&& read_into(req, done, self.cache.held()[req.lba])
        } else if ok {
            &&& asked_for(self.inner, after.inner, req.lba, true)
            &&& after.cache.held().contains_key(req.lba)
            &&& learned(
                self.cache,
                after.cache,
                req.lba,
                Some(after.cache.held()[req.lba]),
            )
            &&& self.inner.sector_len() == 512 ==> after.cache.held()[req.lba]
                == crate::fat32::io::disk_range(self.inner.disk(), req.lba * 512, 512)
            &&& read_into(req, done, after.cache.held()[req.lba])
        } else {
            &&& asked_for(self.inner, after.inner, req.lba, false)
            &&& after.cache == self.cache
            &&& done == req
        }
    }

    /// The requests have been served one after the other, through the states
    /// `states`, with the results `oks`.
    pub open spec fn all_served(
        states: Seq<Self>,
        reqs: Seq<IoRequest>,
        oks: Seq<bool>,
        done: Seq<IoRequest>,
    ) -> bool {
        &&& states.len() == reqs.len() + 1
        &&& oks.len() == reqs.len()
        &&& done.len() == reqs.len()
        &&& forall|i: int|
            0 <= i < reqs.len() ==> #[trigger] step_served(states, i, reqs[i], oks[i], done[i])
    }

    /// The cache holds of each of its sectors what the device does.
    pub open spec fn coherent(self) -> bool {
        &&& self.inner.sector_len() == 512
        &&& forall|lba: u64| #[trigger]
            self.cache.held().contains_key(lba) ==> self.cache.held()[lba]
                == crate::fat32::io::disk_range(self.inner.disk(), lba * 512, 512)
    }
}

/// Request `i` takes state `i` to the one behind it.
pub open spec fn step_served<D: BlockDevice>(
    states: Seq<CachedDevice<D>>,
    i: int,
    req: IoRequest,
    ok: bool,
    done: IoRequest,
) -> bool {
    states[i].served(states[i + 1], req, ok, done)
}

/// `done` is the read `req`, with the sector `data` in its buffer.
pub open spec fn read_into(req: IoRequest, done: IoRequest, data: Seq<u8>) -> bool {
    &&& done.lba == req.lba
    &&& done.count == req.count
    &&& !done.is_write
    &&& done.buffer is Buf
    &&& crate::blockdriver::traits::payload(done.buffer) == filled(
        crate::blockdriver::traits::payload(req.buffer),
        data,
    )
}

/// How many of the results are successes.
pub open spec fn successes(oks: Seq<bool>) -> int
    decreases oks.len(),
{
    if oks.len() == 0 {
        0
    } else {
        successes(oks.drop_last()) + if oks.last() {
            1int
        } else {
            0
        }
    }
}

fn sector_from(v: &Vec<u8>) -> (r: [u8; 512])
    requires
        v@.len() == 512,
    ensures
        r@ == v@,
{
    let mut data: [u8; 512] = [0u8; 512];
    let mut i: usize = 0;
    while i < 512
        invariant
            i <= 512,
            v@.len() == 512,
            data@.len() == 512,
            forall|k: int| 0 <= k < i ==> #[trigger] data@[k] == v@[k],
        decreases 512 - i,
    {
        data[i] = v[i];
        i = i + 1;
    }
    assert(data@ =~= v@);
    data
}

impl BlockCache {
    /// Notes a write that the device has carried out.
    fn note_write(&mut self, lba: u64, count: u32, buf: &Vec<u8>)
        requires
            old(self).inv(),
        ensures
            final(self).inv(),
            write_learned(*old(self), *final(self), lba, count, buf@),
    {
        if count <= 1 && buf.len() == 512 {
            let sector: [u8; 512] = sector_from(buf);
            if self.sectors.contains_key(lba) {
                self.sectors.insert(lba, sector);
                assert(self.held().dom() =~= old(self).held().dom());
            } else {
                self.remember(lba, sector);
            }
        }
    }
}

impl<D: BlockDevice> CachedDevice<D> {
    pub fn new(inner: D) -> (r: Self)
        ensures
            r.inv(),
            r.inner == inner,
            r.cache.held() == Map::<u64, Seq<u8>>::empty(),
    {
        CachedDevice { inner, cache: BlockCache::new() }
    }

    /// Hands a request to the device.
    fn forward(&mut self, req: IoRequest) -> (r: (bool, IoRequest))
        ensures
            final(self).cache == old(self).cache,
            old(self).device_did(*final(self), req, r.0, r.1),
    {
        let mut reqs: Vec<IoRequest> = Vec::new();
        reqs.push(req);
        assert(reqs@ =~= seq![req]);
        let res = self.inner.submit(&mut reqs);
        proof {
            crate::blockdriver::traits::lemma_failures_push(old(self).inner.answers(), res);
        }
        let ok: bool = match res {
            Ok(c) => c.all_ok(),
            Err(_) => false,
        };
        let done: IoRequest = reqs.swap_remove(0);
        (ok, done)
    }

    fn write_io(&mut self, req: IoRequest) -> (r: (bool, IoRequest))
        requires
            old(self).inv(),
            req.is_write,
            !(req.buffer is Phys),
        ensures
            final(self).inv(),
            old(self).served(*final(self), req, r.0, r.1),
    {
        if let IoBuffer::Buf(_) = &req.buffer {
            return (false, req);
        }
        let lba: u64 = req.lba;
        let count: u32 = req.count;
        let (ok, done) = self.forward(req);
        assert(crate::blockdriver::traits::same_request(seq![req][0], seq![done][0]));
        if ok {
            if let IoBuffer::ConstBuf(buf) = &done.buffer {
                self.cache.note_write(lba, count, buf);
            }
        }
        (ok, done)
    }

    fn read_io(&mut self, req: IoRequest) -> (r: (bool, IoRequest))
        requires
            old(self).inv(),
            !req.is_write,
            !(req.buffer is Phys),
        ensures
            final(self).inv(),
            old(self).served(*final(self), req, r.0, r.1),
    {
        match req.buffer {
            IoBuffer::Buf(mut buf) => {
                if req.count > 1 {
                    return self.forward(
                        IoRequest {
                            lba: req.lba,
                            count: req.count,
                            buffer: IoBuffer::Buf(buf),
                            is_write: false,
                        },
                    );
                }
                let ghost before = buf@;
                match self.cache.read(&mut self.inner, req.lba) {
                    Ok(data) => {
                        let mut i: usize = 0;
                        while i < 512 && i < buf.len()
                            invariant
                                i <= 512,
                                i <= buf@.len(),
                                data@.len() == 512,
                                buf@.len() == before.len(),
                                forall|k: int| 0 <= k < i ==> #[trigger] buf@[k] == data@[k],
                                forall|k: int|
                                    i <= k < buf@.len() ==> #[trigger] buf@[k] == before[k],
                            decreases 512 - i,
                        {
                            buf.set(i, data[i]);
                            i = i + 1;
                        }
                        assert(buf@ =~= filled(before, data@));
                        (
                            true,
                            IoRequest {
                                lba: req.lba,
                                count: req.count,
                                buffer: IoBuffer::Buf(buf),
                                is_write: false,
                            },
                        )
                    },
                    Err(()) => (
                        false,
                        IoRequest {
                            lba: req.lba,
                            count: req.count,
                            buffer: IoBuffer::Buf(buf),
                            is_write: false,
                        },
                    ),
                }
            },
            other => (
                false,
                IoRequest { lba: req.lba, count: req.count, buffer: other, is_write: false },
            ),
        }
    }

    /// Serves one request.
    fn serve(&mut self, req: IoRequest) -> (r: (bool, IoRequest))
        requires
            old(self).inv(),
        ensures
            final(self).inv(),
            old(self).served(*final(self), req, r.0, r.1),
    {
        if let IoBuffer::Phys(_, _) = &req.buffer {
            return self.forward(req);
        }
        if req.is_write {
            self.write_io(req)
        } else {
            self.read_io(req)
        }
    }

    /// Carries out `reqs`, one after the other, and counts those that succeeded
    /// and those that failed.
    pub fn submit(&mut self, reqs: &mut Vec<IoRequest>) -> (r: Result<IoCompletions, &'static str>)
        requires
            old(self).inv(),
            old(reqs)@.len() <= u32::MAX,
        ensures
            final(self).inv(),
            exists|states: Seq<Self>, oks: Seq<bool>| #[trigger]
                Self::all_served(states, old(reqs)@, oks, final(reqs)@) && states[0] == *old(self)
                    && states.last() == *final(self) && r == Ok::<IoCompletions, &'static str>(
                    IoCompletions {
                        completed: successes(oks) as u32,
                        errors: (oks.len() - successes(oks)) as u32,
                    },
                ),
    {
        let ghost start = reqs@;
        let ghost mut states: Seq<Self> = seq![*self];
        let ghost mut oks: Seq<bool> = Seq::empty();
        let mut done: Vec<IoRequest> = Vec::new();
        let mut completed: u32 = 0;
        let mut errors: u32 = 0;
        assert(start.skip(0) =~= start);
        while reqs.len() > 0
            invariant
                self.inv(),
                start.len() <= u32::MAX,
                reqs@ == start.skip(oks.len() as int),
                oks.len() <= start.len(),
                oks.len() == done@.len(),
                Self::all_served(states, start.take(oks.len() as int), oks, done@),
                states.last() == *self,
                states[0] == *old(self),
                completed == successes(oks),
                completed + errors == oks.len(),
            decreases reqs@.len(),
        {
            let req: IoRequest = reqs.remove(0);
            let ghost n = oks.len() as int;
            let (ok, after) = self.serve(req);
            let ghost states0 = states;
            let ghost oks0 = oks;
            let ghost done0 = done@;
            done.push(after);
            if ok {
                completed = completed + 1;
            } else {
                errors = errors + 1;
            }
            proof {
                assert(req == start[n]);
                states = states.push(*self);
                oks = oks.push(ok);
                assert(oks.drop_last() =~= oks0);
                assert(start.take(n + 1).drop_last() =~= start.take(n));
                assert(reqs@ =~= start.skip(n + 1));
                assert forall|i: int| 0 <= i < n + 1 implies #[trigger] step_served(
                    states,
                    i,
                    start.take(n + 1)[i],
                    oks[i],
                    done@[i],
                ) by {
                    if i < n {
                        assert(step_served(states0, i, start.take(n)[i], oks0[i], done0[i]));
                        assert(states[i] == states0[i] && states[i + 1] == states0[i + 1]);
                    } else {
                        assert(states[i] == states0.last());
                        assert(states[i + 1] == *self);
                    }
                }
            }
        }
        assert(start.take(oks.len() as int) =~= start);
        *reqs = done;
        assert(Self::all_served(states, start, oks, reqs@));
        Ok(IoCompletions { completed, errors })
    }

    pub fn sector_count(&self) -> (r: u64)
        ensures
            r == self.inner.sectors(),
    {
        self.inner.sector_count()
    }

    pub fn model_string(&self) -> (r: &str)
        ensures
            r@ == self.inner.model(),
    {
        self.inner.model_string()
    }
}

/// A request that the cache can follow: a read, or a write of one sector from
/// bytes. What a longer write, or one from physical addresses, does to the sectors
/// that it names is not noted.
pub open spec fn is_followed(req: IoRequest) -> bool {
    !req.is_write || (req.buffer is ConstBuf && req.count == 1 && crate::blockdriver::traits::payload(
        req.buffer,
    ).len() == 512)
}

/// A request that succeeds leaves a coherent cache coherent, and a read that
/// succeeds hands out what the device holds, wherever it took it from.
pub proof fn law_served_coherently<D: BlockDevice>(
    before: CachedDevice<D>,
    after: CachedDevice<D>,
    req: IoRequest,
    done: IoRequest,
)
    requires
        before.coherent(),
        before.served(after, req, true, done),
        is_followed(req),
    ensures
        after.coherent(),
        !req.is_write ==> after.inner.disk() == before.inner.disk(),
        !req.is_write && req.buffer is Buf && req.count > 0 && crate::blockdriver::traits::payload(
            req.buffer,
        ).len() == req.count * 512 ==> crate::blockdriver::traits::payload(done.buffer)
            == crate::fat32::io::disk_range(
            before.inner.disk(),
            req.lba * 512,
            req.count * 512,
        ),
        req.is_write ==> crate::fat32::io::disk_range(after.inner.disk(), req.lba * 512, 512)
            == crate::blockdriver::traits::payload(req.buffer),
{
    let d0 = before.inner.disk();
    let d1 = after.inner.disk();
    let one = seq![req];
    let out = seq![done];
    if req.is_write {
        let data = crate::blockdriver::traits::payload(req.buffer);
        assert forall|pos: int| crate::blockdriver::traits::written_by(one, 512, pos)
            == #[trigger] crate::blockdriver::traits::covers(one[0], 512, pos) by {
            if crate::blockdriver::traits::written_by(one, 512, pos) {
                let k = choose|k: int|
                    0 <= k < one.len() && one[k].is_write
                        && #[trigger] crate::blockdriver::traits::covers(one[k], 512, pos);
                assert(k == 0);
            }
        }
        assert forall|k: int| 0 <= k < 512 implies #[trigger] d1(req.lba * 512 + k) == data[k] by {
            assert(crate::blockdriver::traits::covers(one[0], 512, req.lba * 512 + k));
        }
        assert(crate::fat32::io::disk_range(d1, req.lba * 512, 512) =~= data);
        assert forall|lba: u64| #[trigger]
            after.cache.held().contains_key(lba) implies after.cache.held()[lba]
            == crate::fat32::io::disk_range(d1, lba * 512, 512) by {
            if lba != req.lba {
                assert(before.cache.held().contains_key(lba));
                assert forall|k: int| 0 <= k < 512 implies #[trigger] d1(lba * 512 + k) == d0(
                    lba * 512 + k,
                ) by {
                    assert(!crate::blockdriver::traits::covers(one[0], 512, lba * 512 + k));
                    assert(!crate::blockdriver::traits::written_by(one, 512, lba * 512 + k));
                }
                assert(crate::fat32::io::disk_range(d1, lba * 512, 512)
                    =~= crate::fat32::io::disk_range(d0, lba * 512, 512));
            }
        }
    } else {
        assert(d1 =~= d0) by {
            if goes_through(req) {
                assert forall|pos: int| #[trigger] d1(pos) == d0(pos) by {
                    assert(!crate::blockdriver::traits::written_by(one, 512, pos));
                }
            }
        }
        if req.buffer is Buf && req.count > 0 && crate::blockdriver::traits::payload(
            req.buffer,
        ).len() == req.count * 512 {
            let got = crate::blockdriver::traits::payload(done.buffer);
            let want = crate::fat32::io::disk_range(d0, req.lba * 512, req.count * 512);
            if goes_through(req) {
                assert(crate::blockdriver::traits::same_request(one[0], out[0]));
                assert forall|k: int| 0 <= k < req.count * 512 implies got[k] == want[k] by {
                    assert(!crate::blockdriver::traits::written_by(one, 512, req.lba * 512 + k));
                    assert(crate::blockdriver::traits::payload(out[0].buffer)[k] == got[k]);
                }
            }
            assert(got =~= want);
        }
    }
}

/// A submission in which every request succeeds leaves a coherent cache coherent,
/// and each read hands out what the device held when its turn came.
pub proof fn law_submitted_coherently<D: BlockDevice>(
    states: Seq<CachedDevice<D>>,
    reqs: Seq<IoRequest>,
    oks: Seq<bool>,
    done: Seq<IoRequest>,
    n: int,
)
    requires
        CachedDevice::all_served(states, reqs, oks, done),
        states[0].coherent(),
        forall|i: int| 0 <= i < reqs.len() ==> is_followed(#[trigger] reqs[i]) && oks[i],
        0 <= n <= reqs.len(),
    ensures
        states[n].coherent(),
        forall|i: int|
            0 <= i < n && !reqs[i].is_write && reqs[i].buffer is Buf && reqs[i].count > 0
                && crate::blockdriver::traits::payload(reqs[i].buffer).len() == reqs[i].count * 512
                ==> crate::blockdriver::traits::payload((#[trigger] done[i]).buffer)
                == crate::fat32::io::disk_range(
                states[i].inner.disk(),
                reqs[i].lba * 512,
                reqs[i].count * 512,
            ),
    decreases n,
{
    if n > 0 {
        law_submitted_coherently(states, reqs, oks, done, n - 1);
        assert(step_served(states, n - 1, reqs[n - 1], oks[n - 1], done[n - 1]));
        law_served_coherently(states[n - 1], states[n], reqs[n - 1], done[n - 1]);
    }
}

} // verus!
