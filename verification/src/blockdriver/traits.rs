//! The interface of a block device.
//!
//! A device is modelled by its contents: a function from byte positions to
//! bytes. Requests name runs of sectors; a request that is not a write leaves
//! the contents alone, and a write touches the sectors that it names only.

use vstd::prelude::*;

verus! {

/// Memory that a request reads into or writes from. A request owns its memory
/// while it is in flight.
pub enum IoBuffer {
    /// Bytes that a read fills.
    Buf(Vec<u8>),
    /// Bytes that a write stores.
    ConstBuf(Vec<u8>),
    /// A physical address and a length; the bytes there are not modelled.
    Phys(u64, usize),
}

/// A transfer of `count` sectors from sector `lba` on.
pub struct IoRequest {
    pub lba: u64,
    pub count: u32,
    pub buffer: IoBuffer,
    pub is_write: bool,
}

/// Which requests of a submission succeeded and which failed: a count, or a bit
/// for each, as the device likes. Zero says that there are none.
#[derive(Debug, Clone, Copy, PartialEq, Eq, Structural)]
pub struct IoCompletions {
    pub completed: u32,
    pub errors: u32,
}

impl IoCompletions {
    /// No request failed, and at least one was completed.
    pub open spec fn is_all_ok(self) -> bool {
        self.errors == 0 && self.completed != 0
    }

    pub fn all_ok(&self) -> (r: bool)
        ensures
            r == self.is_all_ok(),
    {
        self.errors == 0 && self.completed != 0
    }
}

/// The bytes in a request's buffer, where there are any to speak of.
pub open spec fn payload(b: IoBuffer) -> Seq<u8> {
    match b {
        IoBuffer::Buf(v) => v@,
        IoBuffer::ConstBuf(v) => v@,
        IoBuffer::Phys(_, _) => Seq::empty(),
    }
}

/// `pos` lies in the sectors that `r` names, where a sector has `ss` bytes.
pub open spec fn covers(r: IoRequest, ss: int, pos: int) -> bool {
    r.lba * ss <= pos < (r.lba + r.count) * ss
}

/// Some write among `reqs` covers `pos`.
pub open spec fn written_by(reqs: Seq<IoRequest>, ss: int, pos: int) -> bool {
    exists|i: int| 0 <= i < reqs.len() && reqs[i].is_write && #[trigger] covers(reqs[i], ss, pos)
}

/// The two are one request, but for the bytes that a read filled in.
pub open spec fn same_request(a: IoRequest, b: IoRequest) -> bool {
    &&& a.lba == b.lba
    &&& a.count == b.count
    &&& a.is_write == b.is_write
    &&& match (a.buffer, b.buffer) {
        (IoBuffer::Buf(x), IoBuffer::Buf(y)) => x@.len() == y@.len() && (a.is_write ==> x@ == y@),
        (IoBuffer::ConstBuf(x), IoBuffer::ConstBuf(y)) => x@ == y@,
        (IoBuffer::Phys(x, n), IoBuffer::Phys(y, m)) => x == y && n == m,
        (_, _) => false,
    }
}

/// What a submission of `reqs` may do to the contents `before`, whatever the
/// device answers: sectors that no write names keep their bytes.
pub open spec fn submit_frame(
    before: spec_fn(int) -> u8,
    reqs: Seq<IoRequest>,
    ss: int,
    after: spec_fn(int) -> u8,
    reqs_after: Seq<IoRequest>,
) -> bool {
    &&& reqs_after.len() == reqs.len()
    &&& forall|i: int| 0 <= i < reqs.len() ==> same_request(reqs[i], #[trigger] reqs_after[i])
    &&& forall|pos: int| !written_by(reqs, ss, pos) ==> #[trigger] after(pos) == before(pos)
}

/// What a submission that was carried out in full has done: each read holds the
/// bytes of its sectors, and the sectors of each write hold its bytes. Nothing is
/// said of bytes that two writes, or a read and a write, name together, nor of a
/// buffer whose length is not that of its sectors.
pub open spec fn submit_done(
    before: spec_fn(int) -> u8,
    reqs: Seq<IoRequest>,
    ss: int,
    after: spec_fn(int) -> u8,
    reqs_after: Seq<IoRequest>,
) -> bool {
    &&& forall|i: int, k: int|
        #![trigger payload(reqs_after[i].buffer)[k]]
        0 <= i < reqs.len() && !reqs[i].is_write && reqs[i].buffer is Buf && payload(
            reqs[i].buffer,
        ).len() == reqs[i].count * ss && 0 <= k < reqs[i].count * ss && !written_by(
            reqs,
            ss,
            reqs[i].lba * ss + k,
        ) ==> payload(reqs_after[i].buffer)[k] == before(reqs[i].lba * ss + k)
    &&& forall|i: int, pos: int|
        #![trigger covers(reqs[i], ss, pos)]
        0 <= i < reqs.len() && reqs[i].is_write && !(reqs[i].buffer is Phys) && payload(
            reqs[i].buffer,
        ).len() == reqs[i].count * ss && covers(reqs[i], ss, pos) && (forall|j: int|
            0 <= j < reqs.len() && j != i && reqs[j].is_write ==> !covers(reqs[j], ss, pos))
            ==> after(pos) == payload(reqs[i].buffer)[pos - reqs[i].lba * ss]
}

/// What a device answers to a submission.
pub type Answer = Result<IoCompletions, &'static str>;

/// The answer says that every request was carried out.
pub open spec fn carried_out(a: Answer) -> bool {
    a matches Ok(c) && c.is_all_ok()
}

/// The answers in `after` are those in `before`, and some more.
pub open spec fn continues(before: Seq<Answer>, after: Seq<Answer>) -> bool {
    &&& before.len() <= after.len()
    &&& forall|i: int| 0 <= i < before.len() ==> #[trigger] after[i] == before[i]
}

/// `after` has one answer more than `before`.
pub open spec fn one_more(before: Seq<Answer>, after: Seq<Answer>) -> bool {
    continues(before, after) && after.len() == before.len() + 1
}

/// Every answer behind those in `before` says that its requests were carried out.
pub open spec fn none_failed(before: Seq<Answer>, after: Seq<Answer>) -> bool {
    &&& continues(before, after)
    &&& forall|i: int| before.len() <= i < after.len() ==> carried_out(#[trigger] after[i])
}

/// How many of the answers say that something was not carried out.
#[verifier::opaque]
pub open spec fn failures(a: Seq<Answer>) -> nat
    decreases a.len(),
{
    if a.len() == 0 {
        0
    } else {
        failures(a.drop_last()) + (if carried_out(a.last()) {
            0nat
        } else {
            1nat
        })
    }
}

/// How many submissions the device has failed to carry out so far.
pub open spec fn faults<D: BlockDevice>(d: D) -> nat {
    failures(d.answers())
}

/// The device `d` has come to fail a submission, and is gone.
pub open spec fn has_failed<D: BlockDevice>(d: D) -> bool {
    exists|x: D| #[trigger] crate::fat32::io::same_device(x, d) && faults(x) > faults(d)
}

/// One answer more is one failure more, unless everything was carried out.
pub proof fn lemma_failures_push(a: Seq<Answer>, r: Answer)
    ensures
        failures(a.push(r)) == failures(a) + (if carried_out(r) {
            0nat
        } else {
            1nat
        }),
{
    reveal(failures);
    assert(a.push(r).drop_last() =~= a);
}

/// Failures are counted by the answers that came in: there are none more exactly where
/// none of the new answers is one.
pub proof fn law_failures_are_counted(a: Seq<Answer>, b: Seq<Answer>)
    requires
        continues(a, b),
    ensures
        failures(a) <= failures(b),
        failures(a) == failures(b) <==> none_failed(a, b),
    decreases b.len(),
{
    if a.len() == b.len() {
        assert(a =~= b);
    } else {
        let c = b.drop_last();
        assert(continues(a, c));
        law_failures_are_counted(a, c);
        lemma_failures_push(c, b.last());
        assert(c.push(b.last()) =~= b);
        lemma_none_failed_parts(a, c, b);
        assert(carried_out(b.last()) <==> none_failed(c, b)) by {
            assert(b[b.len() - 1] == b.last());
        }
    }
}

/// Answers in which none failed are so in both their parts.
pub proof fn lemma_none_failed_parts(a: Seq<Answer>, b: Seq<Answer>, c: Seq<Answer>)
    requires
        continues(a, b),
        continues(b, c),
    ensures
        continues(a, c),
        none_failed(a, c) <==> none_failed(a, b) && none_failed(b, c),
{
    if none_failed(a, c) {
        assert forall|i: int| a.len() <= i < b.len() implies carried_out(#[trigger] b[i]) by {
            assert(c[i] == b[i]);
        }
    }
}

/// A block device. What it holds, how large it is, and what it was asked and answered have a
/// default, so that a device that is only run need not define them: some constant of its
/// type, which the `submit` of no verified device could keep to.
pub trait BlockDevice {
    /// The byte that the device holds at each position.
    open spec fn disk(&self) -> spec_fn(int) -> u8 {
        vstd::pervasive::arbitrary()
    }

    /// The number of sectors that the device reports.
    open spec fn sectors(&self) -> u64 {
        vstd::pervasive::arbitrary()
    }

    /// The number of bytes in a sector.
    open spec fn sector_len(&self) -> usize {
        vstd::pervasive::arbitrary()
    }

    /// What the device calls itself.
    open spec fn model(&self) -> Seq<char> {
        vstd::pervasive::arbitrary()
    }

    /// The answers that the device has given to submissions, the last one last.
    open spec fn answers(&self) -> Seq<Answer> {
        vstd::pervasive::arbitrary()
    }

    /// What was submitted to the device, the last submission last.
    open spec fn requests(&self) -> Seq<Seq<IoRequest>> {
        vstd::pervasive::arbitrary()
    }

    /// Carries out `reqs`. Whether a request succeeds is up to the device.
    fn submit(&mut self, reqs: &mut Vec<IoRequest>) -> (r: Result<IoCompletions, &'static str>)
        ensures
            final(self).answers() == old(self).answers().push(r),
            final(self).requests() == old(self).requests().push(old(reqs)@),
            final(self).sectors() == old(self).sectors(),
            final(self).sector_len() == old(self).sector_len(),
            final(self).model() == old(self).model(),
            submit_frame(
                old(self).disk(),
                old(reqs)@,
                old(self).sector_len() as int,
                final(self).disk(),
                final(reqs)@,
            ),
            r matches Ok(c) ==> c.is_all_ok() ==> submit_done(
                old(self).disk(),
                old(reqs)@,
                old(self).sector_len() as int,
                final(self).disk(),
                final(reqs)@,
            ),
    ;

    fn sector_count(&self) -> (r: u64)
        ensures
            r == self.sectors(),
    ;

    fn model_string(&self) -> (r: &str)
        ensures
            r@ == self.model(),
    ;

    /// Logical sector size in bytes. All request counts are in units of it.
    fn sector_size(&self) -> (r: usize)
        ensures
            r == self.sector_len(),
    ;

    /// Flushes the device's own write cache. Does nothing on a device that has none.
    fn sync(&mut self) -> (r: Result<(), &'static str>)
        ensures
            final(self).disk() == old(self).disk(),
            final(self).sectors() == old(self).sectors(),
            final(self).sector_len() == old(self).sector_len(),
            final(self).model() == old(self).model(),
            final(self).answers() == old(self).answers(),
            final(self).requests() == old(self).requests(),
    {
        Ok(())
    }
}

} // verus!
