//! Submission of transfers to a port.

use crate::blockdriver::ahci::port::{
    Action, AhciError, AhciPort, Transfer,
};
use crate::blockdriver::ahci::slots::{alloc_slots, tag_mask, AHCI_MAX_SLOTS};
use crate::blockdriver::traits::IoCompletions;
use crate::replay::{Link, Run, Step};
use vstd::prelude::*;

verus! {

type Ask = Link<Action>;

/// What a submission comes to.
pub type Submitted = Result<IoCompletions, AhciError>;

/// The slots are slots of a port.
pub open spec fn are_slots(tags: Seq<u8>) -> bool {
    forall|i: int| 0 <= i < tags.len() ==> #[trigger] tags[i] < AHCI_MAX_SLOTS
}

/// None of the first `n` transfers is empty.
pub open spec fn none_empty(reqs: Seq<Transfer>, n: int) -> bool {
    forall|i: int| 0 <= i < n ==> (#[trigger] reqs[i]).count > 0
}

/// The cache lines of the transfers' memory are flushed, from transfer `i` on.
pub open spec fn cache_flushed(r: Seq<u64>, p: int, reqs: Seq<Transfer>, n: int, i: int) -> Run<
    Action,
    (),
>
    decreases n - i,
{
    if i >= n {
        Run::Gives((), p)
    } else if reqs[i].buf_vaddr == 0 || crate::blockdriver::ahci::port::bytes_of(reqs[i]) == 0 {
        cache_flushed(r, p, reqs, n, i + 1)
    } else {
        crate::replay::follow(
            crate::replay::asked(
                r,
                p,
                Action::FlushCache(
                    reqs[i].buf_vaddr,
                    crate::blockdriver::ahci::port::bytes_of(reqs[i]) as u64,
                ),
            ),
            |w: u64, q: int| cache_flushed(r, q, reqs, n, i + 1),
        )
    }
}

impl AhciPort {
    /// The number of transfers that one submission takes: as many as there are
    /// slots with queuing, one without.
    pub open spec fn taken(self, len: nat) -> int {
        let limit = if self.ncq {
            self.n_slots as int
        } else {
            1
        };
        if len < limit {
            len as int
        } else {
            limit
        }
    }

    /// The slots for `n` transfers.
    pub open spec fn slots_for(self, n: int) -> Seq<u8> {
        crate::blockdriver::ahci::slots::free_tags(self.slot_alloc, self.n_slots as nat).take(n)
    }

    /// Preparing the transfers from number `i` on, each in its slot; `err` marks
    /// the slots whose transfer could not be prepared.
    pub open spec fn all_prepared(
        self,
        r: Seq<u64>,
        p: int,
        reqs: Seq<Transfer>,
        tags: Seq<u8>,
        i: int,
        err: u32,
    ) -> Run<Action, u32>
        decreases tags.len() - i,
    {
        if i >= tags.len() {
            Run::Gives(err, p)
        } else if reqs[i].buf_size < crate::blockdriver::ahci::port::bytes_of(reqs[i]) {
            self.all_prepared(r, p, reqs, tags, i + 1, err | (1u32 << tags[i]))
        } else {
            crate::replay::follow(
                self.prepared(r, p, tags[i], reqs[i]),
                |res: Result<(), AhciError>, q: int|
                    self.all_prepared(
                        r,
                        q,
                        reqs,
                        tags,
                        i + 1,
                        if res is Err {
                            err | (1u32 << tags[i])
                        } else {
                            err
                        },
                    ),
            )
        }
    }

    /// Preparing once more the transfers that `err` does not mark, from number `i`
    /// on. What cannot be prepared any more is marked, and taken out of `retry`.
    pub open spec fn all_prepared_again(
        self,
        r: Seq<u64>,
        p: int,
        reqs: Seq<Transfer>,
        tags: Seq<u8>,
        i: int,
        err: u32,
        retry: u32,
    ) -> Run<Action, (u32, u32)>
        decreases tags.len() - i,
    {
        if i >= tags.len() {
            Run::Gives((err, retry), p)
        } else if err & (1u32 << tags[i]) != 0 {
            self.all_prepared_again(r, p, reqs, tags, i + 1, err, retry)
        } else if reqs[i].buf_size < crate::blockdriver::ahci::port::bytes_of(reqs[i]) {
            self.all_prepared_again(
                r,
                p,
                reqs,
                tags,
                i + 1,
                err | (1u32 << tags[i]),
                retry & !(1u32 << tags[i]),
            )
        } else {
            crate::replay::follow(
                self.prepared(r, p, tags[i], reqs[i]),
                |res: Result<(), AhciError>, q: int|
                    if res is Err {
                        self.all_prepared_again(
                            r,
                            q,
                            reqs,
                            tags,
                            i + 1,
                            err | (1u32 << tags[i]),
                            retry & !(1u32 << tags[i]),
                        )
                    } else {
                        self.all_prepared_again(r, q, reqs, tags, i + 1, err, retry)
                    },
            )
        }
    }

    /// A submission of `reqs` as a whole.
    pub open spec fn submitted(self, r: Seq<u64>, reqs: Seq<Transfer>) -> Run<Action, Submitted> {
        let n = self.taken(reqs.len());
        if n == 0 {
            Run::Gives(Ok(IoCompletions { completed: 0, errors: 0 }), 0)
        } else if crate::blockdriver::ahci::slots::free_tags(
            self.slot_alloc,
            self.n_slots as nat,
        ).len() < n {
            Run::Gives(Err(AhciError::NotEnoughSlots), 0)
        } else {
            let tags = self.slots_for(n);
            crate::replay::follow(
                self.all_prepared(r, 0, reqs, tags, 0, 0),
                |err: u32, q: int| self.started(r, q, reqs, tags, err),
            )
        }
    }

    /// A submission whose transfers have been prepared, but for those that `err`
    /// marks. Where none is left, all of them have failed. The memory of writes is
    /// flushed before the transfers start.
    pub open spec fn started(
        self,
        r: Seq<u64>,
        p: int,
        reqs: Seq<Transfer>,
        tags: Seq<u8>,
        err: u32,
    ) -> Run<Action, Submitted> {
        let all = crate::blockdriver::ahci::slots::mask_of(tags);
        let good = all & !err;
        if good == 0 {
            Run::Gives(Ok(IoCompletions { completed: 0, errors: all }), p)
        } else {
            crate::replay::follow(
                if reqs[0].is_write {
                    cache_flushed(r, p, reqs, tags.len() as int, 0)
                } else {
                    Run::Gives((), p)
                },
                |w: (), q: int|
                    crate::replay::follow(
                        crate::blockdriver::ahci::port::batch_submitted(
                            r,
                            q,
                            self.port,
                            self.ncq,
                            good,
                        ),
                        |res: Result<(), AhciError>, q2: int|
                            if res is Ok {
                                self.completed(r, q2, reqs, tags, good, err)
                            } else {
                                self.tried_again(r, q2, reqs, tags, good, err)
                            },
                    ),
            )
        }
    }

    /// The transfers have completed: the memory of reads is flushed.
    pub open spec fn completed(
        self,
        r: Seq<u64>,
        p: int,
        reqs: Seq<Transfer>,
        tags: Seq<u8>,
        good: u32,
        err: u32,
    ) -> Run<Action, Submitted> {
        if reqs[0].is_write {
            Run::Gives(Ok(IoCompletions { completed: good, errors: err }), p)
        } else {
            crate::replay::follow(
                cache_flushed(r, p, reqs, tags.len() as int, 0),
                |w: (), q: int|
                    crate::replay::follow(
                        crate::replay::asked(r, q, Action::Fence),
                        |w2: u64, q2: int|
                            Run::Gives(Ok(IoCompletions { completed: good, errors: err }), q2),
                    ),
            )
        }
    }

    /// The transfers did not complete: the port is reset, and they are prepared
    /// and started once more.
    pub open spec fn tried_again(
        self,
        r: Seq<u64>,
        p: int,
        reqs: Seq<Transfer>,
        tags: Seq<u8>,
        good: u32,
        err: u32,
    ) -> Run<Action, Submitted> {
        crate::replay::follow(
            crate::blockdriver::ahci::port::port_was_reset(r, p, self.port),
            |res: Result<(), AhciError>, q: int|
                if res is Err {
                    Run::Gives(Err(AhciError::ResetFailed), q)
                } else {
                    crate::replay::follow(
                        self.all_prepared_again(r, q, reqs, tags, 0, err, good),
                        |left: (u32, u32), q2: int|
                            if left.1 == 0 {
                                Run::Gives(
                                    Ok(
                                        IoCompletions {
                                            completed: 0,
                                            errors: crate::blockdriver::ahci::slots::mask_of(tags),
                                        },
                                    ),
                                    q2,
                                )
                            } else {
                                crate::replay::follow(
                                    crate::blockdriver::ahci::port::batch_submitted(
                                        r,
                                        q2,
                                        self.port,
                                        self.ncq,
                                        left.1,
                                    ),
                                    |res2: Result<(), AhciError>, q3: int|
                                        match res2 {
                                            Ok(_) => Run::Gives(
                                                Ok(
                                                    IoCompletions {
                                                        completed: good,
                                                        errors: left.0,
                                                    },
                                                ),
                                                q3,
                                            ),
                                            Err(e) => Run::Gives(Err(e), q3),
                                        },
                                )
                            },
                    )
                },
        )
    }
}

fn flush_cache(l: &mut Ask, reqs: &Vec<Transfer>, n: usize, i: usize) -> (r: Option<()>)
    requires
        old(l).inv(),
        i <= n <= reqs@.len(),
    ensures
        old(l).went(
            *final(l),
            r,
            cache_flushed(old(l).replies@, old(l).used as int, reqs@, n as int, i as int),
        ),
    decreases n - i,
{
    if i >= n {
        return Some(());
    }
    let bytes: u64 = reqs[i].count as u64 * 512;
    if reqs[i].buf_vaddr != 0 && bytes != 0 {
        l.ask(Action::FlushCache(reqs[i].buf_vaddr, bytes))?;
    }
    flush_cache(l, reqs, n, i + 1)
}

impl AhciPort {
    fn prepare_all(
        &self,
        l: &mut Ask,
        reqs: &Vec<Transfer>,
        tags: &Vec<u8>,
        i: usize,
        err: u32,
    ) -> (r: Option<u32>)
        requires
            old(l).inv(),
            self.inv(),
            i <= tags@.len() <= reqs@.len(),
            are_slots(tags@),
            none_empty(reqs@, tags@.len() as int),
        ensures
            old(l).went(
                *final(l),
                r,
                self.all_prepared(
                    old(l).replies@,
                    old(l).used as int,
                    reqs@,
                    tags@,
                    i as int,
                    err,
                ),
            ),
        decreases tags@.len() - i,
    {
        if i >= tags.len() {
            return Some(err);
        }
        assert(tags@[i as int] < AHCI_MAX_SLOTS);
        assert(reqs@[i as int].count > 0);
        let bit: u32 = 1u32 << tags[i];
        let bytes: u64 = reqs[i].count as u64 * 512;
        if reqs[i].buf_size < bytes {
            return self.prepare_all(l, reqs, tags, i + 1, err | bit);
        }
        match self.prepare_cmd(l, tags[i], reqs[i])? {
            Err(_) => self.prepare_all(l, reqs, tags, i + 1, err | bit),
            Ok(()) => self.prepare_all(l, reqs, tags, i + 1, err),
        }
    }

    fn prepare_again(
        &self,
        l: &mut Ask,
        reqs: &Vec<Transfer>,
        tags: &Vec<u8>,
        i: usize,
        err: u32,
        retry: u32,
    ) -> (r: Option<(u32, u32)>)
        requires
            old(l).inv(),
            self.inv(),
            i <= tags@.len() <= reqs@.len(),
            are_slots(tags@),
            none_empty(reqs@, tags@.len() as int),
        ensures
            old(l).went(
                *final(l),
                r,
                self.all_prepared_again(
                    old(l).replies@,
                    old(l).used as int,
                    reqs@,
                    tags@,
                    i as int,
                    err,
                    retry,
                ),
            ),
        decreases tags@.len() - i,
    {
        if i >= tags.len() {
            return Some((err, retry));
        }
        assert(tags@[i as int] < AHCI_MAX_SLOTS);
        assert(reqs@[i as int].count > 0);
        let bit: u32 = 1u32 << tags[i];
        if err & bit != 0 {
            return self.prepare_again(l, reqs, tags, i + 1, err, retry);
        }
        let bytes: u64 = reqs[i].count as u64 * 512;
        if reqs[i].buf_size < bytes {
            return self.prepare_again(l, reqs, tags, i + 1, err | bit, retry & !bit);
        }
        match self.prepare_cmd(l, tags[i], reqs[i])? {
            Err(_) => self.prepare_again(l, reqs, tags, i + 1, err | bit, retry & !bit),
            Ok(()) => self.prepare_again(l, reqs, tags, i + 1, err, retry),
        }
    }

    fn complete(
        &self,
        l: &mut Ask,
        reqs: &Vec<Transfer>,
        tags: &Vec<u8>,
        good: u32,
        err: u32,
    ) -> (r: Option<Submitted>)
        requires
            old(l).inv(),
            0 < tags@.len() <= reqs@.len(),
        ensures
            old(l).went(
                *final(l),
                r,
                self.completed(old(l).replies@, old(l).used as int, reqs@, tags@, good, err),
            ),
    {
        if !reqs[0].is_write {
            flush_cache(l, reqs, tags.len(), 0)?;
            l.ask(Action::Fence)?;
        }
        Some(Ok(IoCompletions { completed: good, errors: err }))
    }

    fn try_again(
        &self,
        l: &mut Ask,
        reqs: &Vec<Transfer>,
        tags: &Vec<u8>,
        good: u32,
        err: u32,
    ) -> (r: Option<Submitted>)
        requires
            old(l).inv(),
            self.inv(),
            0 < tags@.len() <= reqs@.len(),
            are_slots(tags@),
            none_empty(reqs@, tags@.len() as int),
        ensures
            old(l).went(
                *final(l),
                r,
                self.tried_again(old(l).replies@, old(l).used as int, reqs@, tags@, good, err),
            ),
    {
        if crate::blockdriver::ahci::port::port_reset(l, self.port)?.is_err() {
            return Some(Err(AhciError::ResetFailed));
        }
        let (err_now, retry) = self.prepare_again(l, reqs, tags, 0, err, good)?;
        if retry == 0 {
            return Some(Ok(IoCompletions { completed: 0, errors: tag_mask(tags) }));
        }
        match crate::blockdriver::ahci::port::submit_batch(l, self.port, self.ncq, retry)? {
            Ok(()) => Some(Ok(IoCompletions { completed: good, errors: err_now })),
            Err(e) => Some(Err(e)),
        }
    }

    fn start(
        &self,
        l: &mut Ask,
        reqs: &Vec<Transfer>,
        tags: &Vec<u8>,
        err: u32,
    ) -> (r: Option<Submitted>)
        requires
            old(l).inv(),
            self.inv(),
            0 < tags@.len() <= reqs@.len(),
            are_slots(tags@),
            none_empty(reqs@, tags@.len() as int),
        ensures
            old(l).went(
                *final(l),
                r,
                self.started(old(l).replies@, old(l).used as int, reqs@, tags@, err),
            ),
    {
        let all: u32 = tag_mask(tags);
        let good: u32 = all & !err;
        if good == 0 {
            return Some(Ok(IoCompletions { completed: 0, errors: all }));
        }
        if reqs[0].is_write {
            flush_cache(l, reqs, tags.len(), 0)?;
        }
        match crate::blockdriver::ahci::port::submit_batch(l, self.port, self.ncq, good)? {
            Ok(()) => self.complete(l, reqs, tags, good, err),
            Err(_) => self.try_again(l, reqs, tags, good, err),
        }
    }

    fn run_submit(&self, l: &mut Ask, reqs: &Vec<Transfer>) -> (r: Option<Submitted>)
        requires
            old(l).inv(),
            old(l).used == 0,
            self.inv(),
            none_empty(reqs@, self.taken(reqs@.len())),
        ensures
            old(l).went(*final(l), r, self.submitted(old(l).replies@, reqs@)),
    {
        let limit: usize = if self.ncq {
            self.n_slots as usize
        } else {
            1
        };
        let n: usize = if reqs.len() < limit {
            reqs.len()
        } else {
            limit
        };
        if n == 0 {
            return Some(Ok(IoCompletions { completed: 0, errors: 0 }));
        }
        match alloc_slots(self.slot_alloc, self.n_slots, n) {
            None => Some(Err(AhciError::NotEnoughSlots)),
            Some(tags) => {
                assert(tags@ == self.slots_for(n as int));
                assert(are_slots(tags@)) by {
                    assert forall|i: int| 0 <= i < tags@.len() implies #[trigger] tags@[i]
                        < AHCI_MAX_SLOTS by {}
                }
                let err: u32 = self.prepare_all(l, reqs, &tags, 0, 0)?;
                self.start(l, reqs, &tags, err)
            },
        }
    }

    /// Submits transfers, as many as there are slots for. The slots are free again
    /// when it has come to its end.
    pub fn submit(&self, replies: Vec<u64>, reqs: &Vec<Transfer>) -> (r: Step<Action, Submitted>)
        requires
            self.inv(),
            none_empty(reqs@, self.taken(reqs@.len())),
        ensures
            r == crate::replay::told(self.submitted(replies@, reqs@)),
    {
        let mut l = Link::start(replies);
        let done: Option<Submitted> = self.run_submit(&mut l, reqs);
        l.finish(done)
    }
}

} // verus!
