//! A partition as a device of its own.

use vstd::prelude::*;

use crate::blockdriver::traits;
use crate::blockdriver::traits::{Answer, BlockDevice, IoCompletions, IoRequest};
use crate::partition::PartitionInfo;
use crate::text;
use crate::text::{chars_of, decimal_digits, from_chars};

verus! {

/// The sectors of a partition, counted from its first one.
pub struct PartitionDevice<D: BlockDevice> {
    pub inner: D,
    pub start_lba: u64,
    pub sector_count: u64,
    pub model: String,
    /// What was submitted to the partition.
    pub asked: Ghost<Seq<Seq<IoRequest>>>,
    /// The answers that the partition has given.
    pub given: Ghost<Seq<Answer>>,
}

/// The digits as characters.
pub open spec fn digit_chars(v: Seq<u8>) -> Seq<char> {
    v.map_values(|b: u8| b as char)
}

/// What a partition calls itself.
pub open spec fn partition_model(number: int, inner: Seq<char>) -> Seq<char> {
    "partition "@ + digit_chars(text::decimal(number)) + " of "@ + inner
}

fn model_text(number: u32, inner: &str) -> (r: String)
    ensures
        r@ == partition_model(number as int, inner@),
{
    let mut out: Vec<char> = chars_of("partition ");
    let digits: Vec<u8> = decimal_digits(number as u64);
    let ghost head = out@;
    let mut i: usize = 0;
    while i < digits.len()
        invariant
            i <= digits@.len(),
            out@ == head + digit_chars(digits@.take(i as int)),
        decreases digits@.len() - i,
    {
        let ghost before = out@;
        out.push(digits[i] as char);
        assert(digits@.take(i + 1) =~= digits@.take(i as int).push(digits@[i as int]));
        assert(out@ =~= head + digit_chars(digits@.take(i + 1)));
        i = i + 1;
    }
    assert(digits@.take(i as int) =~= digits@);
    let mut mid: Vec<char> = chars_of(" of ");
    let mut tail: Vec<char> = chars_of(inner);
    out.append(&mut mid);
    out.append(&mut tail);
    assert(out@ =~= partition_model(number as int, inner@));
    from_chars(&out)
}

/// `b` are the requests `a`, `by` sectors further on.
pub open spec fn shifted(a: Seq<IoRequest>, b: Seq<IoRequest>, by: int) -> bool {
    &&& a.len() == b.len()
    &&& forall|i: int|
        0 <= i < a.len() ==> (#[trigger] b[i]).lba == a[i].lba + by && b[i].count == a[i].count
            && b[i].buffer == a[i].buffer && b[i].is_write == a[i].is_write
}

/// The requests `a`, `by` sectors further on.
pub open spec fn further_on(a: Seq<IoRequest>, by: int) -> Seq<IoRequest> {
    a.map_values(|r: IoRequest| IoRequest { lba: (r.lba + by) as u64, ..r })
}

/// A position in the sectors of a request is one in those of the shifted request.
proof fn lemma_covers_shifted(a: IoRequest, b: IoRequest, by: int, ss: int, pos: int)
    requires
        b.lba == a.lba + by,
        b.count == a.count,
    ensures
        traits::covers(a, ss, pos) == traits::covers(b, ss, pos + by * ss),
{
    assert((a.lba + by) * ss == a.lba * ss + by * ss) by (nonlinear_arith);
    assert((a.lba + by + a.count) * ss == (a.lba + a.count) * ss + by * ss) by (nonlinear_arith);
}

proof fn lemma_written_shifted(a: Seq<IoRequest>, b: Seq<IoRequest>, by: int, ss: int, pos: int)
    requires
        shifted(a, b, by),
    ensures
        traits::written_by(a, ss, pos) == traits::written_by(b, ss, pos + by * ss),
{
    if traits::written_by(a, ss, pos) {
        let i = choose|i: int|
            0 <= i < a.len() && a[i].is_write && #[trigger] traits::covers(a[i], ss, pos);
        lemma_covers_shifted(a[i], b[i], by, ss, pos);
        assert(traits::covers(b[i], ss, pos + by * ss));
    }
    if traits::written_by(b, ss, pos + by * ss) {
        let i = choose|i: int|
            0 <= i < b.len() && b[i].is_write && #[trigger] traits::covers(
                b[i],
                ss,
                pos + by * ss,
            );
        lemma_covers_shifted(a[i], b[i], by, ss, pos);
        assert(traits::covers(a[i], ss, pos));
    }
}

/// The contents of a device from sector `by` on.
pub open spec fn from_sector(d: spec_fn(int) -> u8, by: int, ss: int) -> spec_fn(int) -> u8 {
    |pos: int| d(pos + by * ss)
}

/// What shifted requests do to a device, the requests do to the partition.
proof fn lemma_submit_shifted(
    before: spec_fn(int) -> u8,
    after: spec_fn(int) -> u8,
    a: Seq<IoRequest>,
    b: Seq<IoRequest>,
    b2: Seq<IoRequest>,
    a2: Seq<IoRequest>,
    by: int,
    ss: int,
    done: bool,
)
    requires
        shifted(a, b, by),
        shifted(a2, b2, by),
        traits::submit_frame(before, b, ss, after, b2),
        done ==> traits::submit_done(before, b, ss, after, b2),
    ensures
        traits::submit_frame(from_sector(before, by, ss), a, ss, from_sector(after, by, ss), a2),
        done ==> traits::submit_done(
            from_sector(before, by, ss),
            a,
            ss,
            from_sector(after, by, ss),
            a2,
        ),
{
    let f = from_sector(before, by, ss);
    let g = from_sector(after, by, ss);
    assert forall|i: int| 0 <= i < a.len() implies traits::same_request(a[i], #[trigger] a2[i]) by {
        assert(traits::same_request(b[i], b2[i]));
        assert(b[i].lba == a[i].lba + by && b2[i].lba == a2[i].lba + by);
    }
    assert forall|pos: int| !traits::written_by(a, ss, pos) implies #[trigger] g(pos) == f(pos) by {
        lemma_written_shifted(a, b, by, ss, pos);
        assert(after(pos + by * ss) == before(pos + by * ss));
    }
    if done {
        assert forall|i: int, k: int|
            #![trigger traits::payload(a2[i].buffer)[k]]
            0 <= i < a.len() && !a[i].is_write && a[i].buffer is Buf && traits::payload(
                a[i].buffer,
            ).len() == a[i].count * ss && 0 <= k < a[i].count * ss && !traits::written_by(
                a,
                ss,
                a[i].lba * ss + k,
            ) implies traits::payload(a2[i].buffer)[k] == f(a[i].lba * ss + k) by {
            lemma_written_shifted(a, b, by, ss, a[i].lba * ss + k);
            assert(b[i].lba * ss + k == a[i].lba * ss + k + by * ss) by (nonlinear_arith)
                requires
                    b[i].lba == a[i].lba + by,
            ;
            assert(a2[i].buffer == b2[i].buffer);
            assert(traits::payload(b2[i].buffer)[k] == before(b[i].lba * ss + k));
        }
        assert forall|i: int, pos: int|
            #![trigger traits::covers(a[i], ss, pos)]
            0 <= i < a.len() && a[i].is_write && !(a[i].buffer is Phys) && traits::payload(
                a[i].buffer,
            ).len() == a[i].count * ss && traits::covers(a[i], ss, pos) && (forall|j: int|
                0 <= j < a.len() && j != i && a[j].is_write ==> !traits::covers(
                    a[j],
                    ss,
                    pos,
                )) implies g(pos) == traits::payload(a[i].buffer)[pos - a[i].lba * ss] by {
            let q = pos + by * ss;
            lemma_covers_shifted(a[i], b[i], by, ss, pos);
            assert forall|j: int| 0 <= j < b.len() && j != i && b[j].is_write implies !traits::covers(
                b[j],
                ss,
                q,
            ) by {
                lemma_covers_shifted(a[j], b[j], by, ss, pos);
                assert(!traits::covers(a[j], ss, pos));
            }
            assert(traits::covers(b[i], ss, q));
            assert(q - b[i].lba * ss == pos - a[i].lba * ss) by (nonlinear_arith)
                requires
                    b[i].lba == a[i].lba + by,
                    q == pos + by * ss,
            ;
        }
    }
}

impl<D: BlockDevice> PartitionDevice<D> {
    /// The partition that `info` describes.
    pub fn new(inner: D, info: &PartitionInfo) -> (r: Self)
        ensures
            r.inner == inner,
            r.start_lba == info.start_lba,
            r.sector_count == info.size_sectors,
            r.model@ == partition_model(info.number as int, inner.model()),
            r.asked@ == Seq::<Seq<IoRequest>>::empty(),
            r.given@ == Seq::<Answer>::empty(),
    {
        let model: String = model_text(info.number, inner.model_string());
        PartitionDevice {
            inner,
            start_lba: info.start_lba,
            sector_count: info.size_sectors,
            model,
            asked: Ghost(Seq::empty()),
            given: Ghost(Seq::empty()),
        }
    }

    /// All requests stay in the partition.
    pub open spec fn in_range(self, reqs: Seq<IoRequest>) -> bool {
        &&& self.start_lba + self.sector_count <= u64::MAX
        &&& forall|i: int|
            0 <= i < reqs.len() ==> (#[trigger] reqs[i]).lba + reqs[i].count <= self.sector_count
    }

    /// Tells why requests do not stay in the partition.
    fn check_range(&self, reqs: &Vec<IoRequest>) -> (r: Result<(), &'static str>)
        ensures
            r is Ok <==> self.in_range(reqs@),
    {
        match self.start_lba.checked_add(self.sector_count) {
            Some(_) => {},
            None => return Err("partition range overflow"),
        }
        let mut i: usize = 0;
        while i < reqs.len()
            invariant
                i <= reqs@.len(),
                self.start_lba + self.sector_count <= u64::MAX,
                forall|k: int|
                    0 <= k < i ==> (#[trigger] reqs@[k]).lba + reqs@[k].count <= self.sector_count,
            decreases reqs@.len() - i,
        {
            match reqs[i].lba.checked_add(reqs[i].count as u64) {
                Some(end) => {
                    if end > self.sector_count {
                        assert(reqs@[i as int].lba + reqs@[i as int].count > self.sector_count);
                        return Err("partition LBA out of range");
                    }
                },
                None => {
                    assert(reqs@[i as int].lba + reqs@[i as int].count > self.sector_count);
                    return Err("partition request range overflow");
                },
            }
            i = i + 1;
        }
        Ok(())
    }
}

/// Moves requests `by` sectors on.
fn shift_on(reqs: &mut Vec<IoRequest>, by: u64)
    requires
        forall|i: int| 0 <= i < old(reqs)@.len() ==> (#[trigger] old(reqs)@[i]).lba + by <= u64::MAX,
    ensures
        shifted(old(reqs)@, final(reqs)@, by as int),
{
    let ghost a = reqs@;
    let mut i: usize = 0;
    while i < reqs.len()
        invariant
            i <= reqs@.len(),
            a == old(reqs)@,
            reqs@.len() == a.len(),
            forall|k: int| 0 <= k < a.len() ==> (#[trigger] a[k]).lba + by <= u64::MAX,
            forall|k: int|
                0 <= k < i ==> (#[trigger] reqs@[k]).lba == a[k].lba + by && reqs@[k].count
                    == a[k].count && reqs@[k].buffer == a[k].buffer && reqs@[k].is_write
                    == a[k].is_write,
            forall|k: int| i <= k < a.len() ==> #[trigger] reqs@[k] == a[k],
        decreases reqs@.len() - i,
    {
        assert(reqs@[i as int] == a[i as int]);
        let lba: u64 = reqs[i].lba + by;
        reqs[i].lba = lba;
        i = i + 1;
    }
}

/// Moves requests `by` sectors back.
fn shift_back(reqs: &mut Vec<IoRequest>, by: u64)
    requires
        forall|i: int| 0 <= i < old(reqs)@.len() ==> (#[trigger] old(reqs)@[i]).lba >= by,
    ensures
        shifted(final(reqs)@, old(reqs)@, by as int),
{
    let ghost a = reqs@;
    let mut i: usize = 0;
    while i < reqs.len()
        invariant
            i <= reqs@.len(),
            a == old(reqs)@,
            reqs@.len() == a.len(),
            forall|k: int| 0 <= k < a.len() ==> (#[trigger] a[k]).lba >= by,
            forall|k: int|
                0 <= k < i ==> (#[trigger] reqs@[k]).lba == a[k].lba - by && reqs@[k].count
                    == a[k].count && reqs@[k].buffer == a[k].buffer && reqs@[k].is_write
                    == a[k].is_write,
            forall|k: int| i <= k < a.len() ==> #[trigger] reqs@[k] == a[k],
        decreases reqs@.len() - i,
    {
        assert(reqs@[i as int] == a[i as int]);
        let lba: u64 = reqs[i].lba - by;
        reqs[i].lba = lba;
        i = i + 1;
    }
}

impl<D: BlockDevice> BlockDevice for PartitionDevice<D> {
    open spec fn disk(&self) -> spec_fn(int) -> u8 {
        from_sector(self.inner.disk(), self.start_lba as int, self.inner.sector_len() as int)
    }

    open spec fn sectors(&self) -> u64 {
        self.sector_count
    }

    open spec fn sector_len(&self) -> usize {
        self.inner.sector_len()
    }

    open spec fn model(&self) -> Seq<char> {
        self.model@
    }

    open spec fn requests(&self) -> Seq<Seq<IoRequest>> {
        self.asked@
    }

    open spec fn answers(&self) -> Seq<Answer> {
        self.given@
    }

    /// Hands requests that stay in the partition on to the device.
    fn submit(&mut self, reqs: &mut Vec<IoRequest>) -> (r: Result<IoCompletions, &'static str>)
        ensures
            final(self).start_lba == old(self).start_lba,
            old(reqs)@.len() > 0 && !old(self).in_range(old(reqs)@) ==> r is Err
                && final(self).inner == old(self).inner && final(reqs)@ == old(reqs)@,
            old(reqs)@.len() == 0 ==> r == Ok::<IoCompletions, &'static str>(
                IoCompletions { completed: 0, errors: 0 },
            ) && final(self).inner == old(self).inner,
            old(reqs)@.len() > 0 && old(self).in_range(old(reqs)@) ==> final(self).inner.answers()
                == old(self).inner.answers().push(r) && final(self).inner.requests()
                == old(self).inner.requests().push(
                further_on(old(reqs)@, old(self).start_lba as int),
            ),
    {
        let ghost ss = self.inner.sector_len() as int;
        let ghost by = self.start_lba as int;
        let ghost a = reqs@;
        let ghost before = self.inner.disk();
        self.asked = Ghost(self.asked@.push(a));
        proof {
            assert forall|i: int| 0 <= i < a.len() implies traits::same_request(
                a[i],
                #[trigger] a[i],
            ) by {}
        }
        if reqs.len() == 0 {
            let none = IoCompletions { completed: 0, errors: 0 };
            self.given = Ghost(self.given@.push(Ok(none)));
            return Ok(none);
        }
        match self.check_range(reqs) {
            Ok(_) => {},
            Err(e) => {
                self.given = Ghost(self.given@.push(Err(e)));
                return Err(e);
            },
        }
        shift_on(reqs, self.start_lba);
        let ghost b = reqs@;
        assert(b =~= further_on(a, by)) by {
            assert forall|i: int| 0 <= i < b.len() implies b[i] == further_on(a, by)[i] by {
                assert(b[i].lba == a[i].lba + by);
            }
        }
        let r = self.inner.submit(reqs);
        self.given = Ghost(self.given@.push(r));
        let ghost b2 = reqs@;
        assert forall|i: int| 0 <= i < b2.len() implies (#[trigger] b2[i]).lba >= self.start_lba by {
            assert(traits::same_request(b[i], b2[i]));
        }
        shift_back(reqs, self.start_lba);
        proof {
            let done = r matches Ok(c) && c.is_all_ok();
            lemma_submit_shifted(before, self.inner.disk(), a, b, b2, reqs@, by, ss, done);
        }
        r
    }

    fn sector_count(&self) -> (r: u64) {
        self.sector_count
    }

    fn model_string(&self) -> (r: &str) {
        self.model.as_str()
    }

    fn sector_size(&self) -> (r: usize) {
        self.inner.sector_size()
    }
}

} // verus!
