//! Runs of clusters, and reading through them.

use crate::blockdriver::traits::BlockDevice;
use crate::ntfs::detail::LastError;
use crate::ntfs::io::read_sectors;
use crate::ntfs::boot::BootSector;
use crate::vfs::VfsError;
use vstd::prelude::*;

verus! {

/// Bytes in one transfer, at most.
pub const MAX_READ_BYTES: u64 = 258_048;

pub const MAX_RUNS: usize = 1_000_000;

/// A run: `len` clusters of a file from its cluster `vcn` on, which lie on the
/// volume from cluster `lcn` on. A negative `lcn` marks a hole, which reads as
/// zeros.
#[derive(Debug, Clone, Copy, PartialEq, Eq, Structural)]
pub struct Run {
    pub vcn: u64,
    pub lcn: i64,
    pub len: u64,
}

pub struct RunList {
    pub runs: Vec<Run>,
}

/// 256 to the power `k`.
pub open spec fn pow256(k: nat) -> int
    decreases k,
{
    if k == 0 {
        1
    } else {
        256 * pow256((k - 1) as nat)
    }
}

/// The little-endian number in the `k` bytes at `pos`.
pub open spec fn le_num(s: Seq<u8>, pos: int, k: nat) -> int
    decreases k,
{
    if k == 0 {
        0
    } else {
        s[pos] + 256 * le_num(s, pos + 1, (k - 1) as nat)
    }
}

/// The same, taken as a signed number.
pub open spec fn signed_num(s: Seq<u8>, pos: int, k: nat) -> int {
    if 2 * le_num(s, pos, k) >= pow256(k) {
        le_num(s, pos, k) - pow256(k)
    } else {
        le_num(s, pos, k)
    }
}

proof fn lemma_le_num(s: Seq<u8>, pos: int, k: nat)
    ensures
        0 <= le_num(s, pos, k) < pow256(k),
    decreases k,
{
    if k > 0 {
        lemma_le_num(s, pos + 1, (k - 1) as nat);
    }
}

proof fn lemma_pow256(k: nat)
    requires
        k <= 8,
    ensures
        1 <= pow256(k) <= 0x1_0000_0000_0000_0000,
{
    reveal_with_fuel(pow256, 9);
}

/// A pair at `pos` can be read: how many bytes its two numbers have is sensible,
/// and they are there.
pub open spec fn pair_fits(data: Seq<u8>, pos: int) -> bool {
    let ll = data[pos] % 16;
    let ol = data[pos] / 16;
    1 <= ll <= 8 && ol <= 8 && pos + 1 + ll + ol <= data.len()
}

/// The length in the pair at `pos`.
pub open spec fn pair_len(data: Seq<u8>, pos: int) -> int {
    le_num(data, pos + 1, (data[pos] % 16) as nat)
}

/// Where the run of the pair at `pos` starts on the volume; the run before it
/// started at `lcn`.
pub open spec fn pair_lcn(data: Seq<u8>, pos: int, lcn: int) -> int {
    if data[pos] / 16 == 0 {
        lcn
    } else {
        lcn + signed_num(data, pos + 1 + data[pos] % 16, (data[pos] / 16) as nat)
    }
}

/// The place behind the pair at `pos`.
pub open spec fn pair_end(data: Seq<u8>, pos: int) -> int {
    pos + 1 + data[pos] % 16 + data[pos] / 16
}

/// The numbers of the pair at `pos` make sense, behind `vcn` clusters from `base`
/// on.
pub open spec fn pair_sound(data: Seq<u8>, pos: int, vcn: int, lcn: int, base: int) -> bool {
    &&& pair_fits(data, pos)
    &&& 0 < pair_len(data, pos) <= i64::MAX
    &&& vcn + pair_len(data, pos) <= i64::MAX
    &&& base + vcn + pair_len(data, pos) <= u64::MAX
    &&& i64::MIN <= pair_lcn(data, pos, lcn) <= i64::MAX
}

/// What is left of the pairs.
pub open spec fn left(data: Seq<u8>, pos: int) -> nat {
    if pos < data.len() {
        (data.len() - pos) as nat
    } else {
        0
    }
}

/// The run of the pair at `pos`. A pair without an offset is a hole.
pub open spec fn pair_run(data: Seq<u8>, pos: int, vcn: int, lcn: int, base: int) -> Run {
    Run {
        vcn: (base + vcn) as u64,
        lcn: if data[pos] / 16 == 0 {
            -1i64
        } else {
            pair_lcn(data, pos, lcn) as i64
        },
        len: pair_len(data, pos) as u64,
    }
}

/// The runs of the pairs from `pos` on, behind `n` others: `vcn` clusters from
/// `base` on are taken, and the last run that was no hole starts at `lcn`. The
/// pairs end with a zero; offsets are relative to the run before.
pub open spec fn runs_from(
    data: Seq<u8>,
    pos: int,
    vcn: int,
    lcn: int,
    base: int,
    n: nat,
) -> Option<Seq<Run>>
    decreases left(data, pos),
{
    if n >= MAX_RUNS || pos >= data.len() {
        None
    } else if data[pos] == 0 {
        Some(Seq::empty())
    } else if !pair_sound(data, pos, vcn, lcn, base) {
        None
    } else {
        match runs_from(
            data,
            pair_end(data, pos),
            vcn + pair_len(data, pos),
            pair_lcn(data, pos, lcn),
            base,
            n + 1,
        ) {
            Some(more) => Some(seq![pair_run(data, pos, vcn, lcn, base)] + more),
            None => None,
        }
    }
}

/// The runs of an attribute's mapping pairs, if they are well formed.
pub open spec fn runs_of(data: Seq<u8>, base: u64) -> Option<Seq<Run>> {
    runs_from(data, 0, 0, 0, base as int, 0)
}

/// Each run starts where the one before it ends, and the first at `start`.
pub open spec fn contiguous(runs: Seq<Run>, start: int) -> bool
    decreases runs.len(),
{
    runs.len() == 0 || (runs[0].vcn == start && contiguous(runs.skip(1), start + runs[0].len))
}

/// The clusters of an attribute follow one another without gap or overlap, from
/// the first cluster that the attribute has.
pub proof fn law_runs_are_contiguous(
    data: Seq<u8>,
    pos: int,
    vcn: int,
    lcn: int,
    base: int,
    n: nat,
)
    requires
        runs_from(data, pos, vcn, lcn, base, n) is Some,
        0 <= base + vcn <= u64::MAX,
    ensures
        contiguous(runs_from(data, pos, vcn, lcn, base, n)->0, base + vcn),
    decreases left(data, pos),
{
    let runs = runs_from(data, pos, vcn, lcn, base, n)->0;
    if runs.len() > 0 {
        law_runs_are_contiguous(
            data,
            pair_end(data, pos),
            vcn + pair_len(data, pos),
            pair_lcn(data, pos, lcn),
            base,
            n + 1,
        );
        assert(runs.skip(1) =~= runs_from(
            data,
            pair_end(data, pos),
            vcn + pair_len(data, pos),
            pair_lcn(data, pos, lcn),
            base,
            n + 1,
        )->0);
    }
}

/// The runs stand in the order of their clusters in the file.
pub open spec fn sorted(runs: Seq<Run>) -> bool {
    forall|i: int, j: int| 0 <= i <= j < runs.len() ==> runs[i].vcn <= runs[j].vcn
}

/// Contiguous runs are sorted, and disjoint.
pub proof fn lemma_contiguous_sorted(runs: Seq<Run>, start: int)
    requires
        contiguous(runs, start),
    ensures
        sorted(runs),
        disjoint(runs),
        forall|i: int| 0 <= i < runs.len() ==> start <= #[trigger] runs[i].vcn,
    decreases runs.len(),
{
    if runs.len() > 0 {
        lemma_contiguous_sorted(runs.skip(1), start + runs[0].len);
        assert forall|i: int| 0 <= i < runs.len() implies start <= #[trigger] runs[i].vcn by {
            if i > 0 {
                assert(runs.skip(1)[i - 1] == runs[i]);
            }
        }
        assert forall|i: int, j: int| 0 <= i <= j < runs.len() implies runs[i].vcn
            <= runs[j].vcn by {
            if i > 0 {
                assert(runs.skip(1)[i - 1] == runs[i]);
                assert(runs.skip(1)[j - 1] == runs[j]);
            }
        }
        assert forall|i: int, j: int|
            #![trigger runs[i], runs[j]]
            0 <= i < j < runs.len() implies runs[i].vcn + runs[i].len <= runs[j].vcn by {
            assert(runs.skip(1)[j - 1] == runs[j]);
            if i > 0 {
                assert(runs.skip(1)[i - 1] == runs[i]);
            }
        }
    }
}

/// The little-endian number in the `k` bytes at `pos`.
fn read_number(data: &[u8], pos: usize, k: usize) -> (r: u64)
    requires
        k <= 8,
        pos + k <= data@.len(),
    ensures
        r == le_num(data@, pos as int, k as nat),
{
    assert(data@.len() == data.len());
    let mut acc: u64 = 0;
    let mut i: usize = k;
    while i > 0
        invariant
            data@.len() == data.len(),
            i <= k <= 8,
            pos + k <= data@.len(),
            acc == le_num(data@, pos + i, (k - i) as nat),
        decreases i,
    {
        proof {
            lemma_le_num(data@, pos + i - 1, (k - i + 1) as nat);
            lemma_pow256((k - i + 1) as nat);
        }
        acc = data[pos + i - 1] as u64 + 256 * acc;
        i = i - 1;
    }
    acc
}

/// The signed number in the `k` bytes at `pos`.
fn read_signed(data: &[u8], pos: usize, k: usize) -> (r: i128)
    requires
        k <= 8,
        pos + k <= data@.len(),
    ensures
        r == signed_num(data@, pos as int, k as nat),
        -0x1_0000_0000_0000_0000 <= r <= 0x1_0000_0000_0000_0000,
{
    let raw: i128 = read_number(data, pos, k) as i128;
    let mut limit: i128 = 1;
    let mut i: usize = 0;
    while i < k
        invariant
            i <= k <= 8,
            limit == pow256(i as nat),
        decreases k - i,
    {
        proof {
            lemma_pow256((i + 1) as nat);
        }
        limit = 256 * limit;
        i = i + 1;
    }
    proof {
        lemma_pow256(k as nat);
        lemma_le_num(data@, pos as int, k as nat);
    }
    if 2 * raw >= limit {
        raw - limit
    } else {
        raw
    }
}

/// One pair that was read: its run, and the numbers that go on.
struct Pair {
    run: Run,
    vcn: i64,
    lcn: i64,
    end: usize,
}

fn read_pair(data: &[u8], pos: usize, vcn: i64, lcn: i64, base: u64) -> (r: Option<Pair>)
    requires
        pos < data@.len(),
        vcn >= 0,
        base + vcn <= u64::MAX,
    ensures
        r is Some <==> pair_sound(data@, pos as int, vcn as int, lcn as int, base as int),
        r is Some ==> {
            &&& r->0.run == pair_run(data@, pos as int, vcn as int, lcn as int, base as int)
            &&& r->0.vcn == vcn + pair_len(data@, pos as int)
            &&& r->0.lcn == pair_lcn(data@, pos as int, lcn as int)
            &&& r->0.end == pair_end(data@, pos as int)
        },
{
    assert(data@.len() == data.len());
    let hdr: u8 = data[pos];
    let len_len: usize = (hdr % 16) as usize;
    let off_len: usize = (hdr / 16) as usize;
    if len_len == 0 || len_len > 8 || off_len > 8 {
        return None;
    }
    if data.len() - pos < 1 + len_len + off_len {
        return None;
    }
    let length: u64 = read_number(data, pos + 1, len_len);
    if length == 0 || length > i64::MAX as u64 {
        return None;
    }
    if length > (i64::MAX - vcn) as u64 {
        return None;
    }
    let start: u64 = base + vcn as u64;
    if length > u64::MAX - start {
        return None;
    }
    let next_vcn: i64 = vcn + length as i64;
    let end: usize = pos + 1 + len_len + off_len;
    if off_len == 0 {
        return Some(
            Pair { run: Run { vcn: start, lcn: -1, len: length }, vcn: next_vcn, lcn, end },
        );
    }
    let delta: i128 = read_signed(data, pos + 1 + len_len, off_len);
    let next: i128 = lcn as i128 + delta;
    if next < i64::MIN as i128 || next > i64::MAX as i128 {
        return None;
    }
    let next_lcn: i64 = next as i64;
    Some(
        Pair {
            run: Run { vcn: start, lcn: next_lcn, len: length },
            vcn: next_vcn,
            lcn: next_lcn,
            end,
        },
    )
}

/// The runs of an attribute's mapping pairs, whose first cluster is `base_vcn`.
pub fn decode_mapping_pairs(data: &[u8], base_vcn: u64) -> (r: Result<RunList, VfsError>)
    ensures
        match runs_of(data@, base_vcn) {
            Some(v) => r is Ok && r->Ok_0.runs@ == v && sorted(v) && disjoint(v),
            None => r == Err::<RunList, VfsError>(VfsError::IOError),
        },
{
    let mut runs: Vec<Run> = Vec::new();
    let mut vcn: i64 = 0;
    let mut lcn: i64 = 0;
    let mut pos: usize = 0;
    assert(data@.len() == data.len());
    let ghost whole = runs_of(data@, base_vcn);
    assert(whole is Some ==> runs@ + whole->0 =~= whole->0);
    loop
        invariant
            data@.len() == data.len(),
            vcn >= 0,
            base_vcn + vcn <= u64::MAX,
            runs@.len() <= MAX_RUNS,
            whole == runs_of(data@, base_vcn),
            whole is Some <==> runs_from(
                data@,
                pos as int,
                vcn as int,
                lcn as int,
                base_vcn as int,
                runs@.len(),
            ) is Some,
            whole is Some ==> whole->0 == runs@ + runs_from(
                data@,
                pos as int,
                vcn as int,
                lcn as int,
                base_vcn as int,
                runs@.len(),
            )->0,
        ensures
            whole is Some,
            whole->0 == runs@,
        decreases left(data@, pos as int),
    {
        if runs.len() >= MAX_RUNS || pos >= data.len() {
            return Err(VfsError::IOError);
        }
        if data[pos] == 0 {
            assert(runs@ + Seq::<Run>::empty() =~= runs@);
            break;
        }
        match read_pair(data, pos, vcn, lcn, base_vcn) {
            None => {
                return Err(VfsError::IOError);
            },
            Some(p) => {
                let ghost more = runs_from(
                    data@,
                    p.end as int,
                    p.vcn as int,
                    p.lcn as int,
                    base_vcn as int,
                    runs@.len() + 1,
                );
                let ghost before = runs@;
                runs.push(p.run);
                assert(more is Some ==> before + (seq![p.run] + more->0) =~= runs@ + more->0);
                vcn = p.vcn;
                lcn = p.lcn;
                pos = p.end;
            },
        }
    }
    proof {
        law_runs_are_contiguous(data@, 0, 0, 0, base_vcn as int, 0);
        lemma_contiguous_sorted(whole->0, base_vcn as int);
    }
    Ok(RunList { runs })
}

/// The last run that starts at or before cluster `vcn`.
pub open spec fn last_at(runs: Seq<Run>, vcn: int) -> Option<int>
    decreases runs.len(),
{
    if runs.len() == 0 {
        None
    } else if runs.last().vcn <= vcn {
        Some(runs.len() - 1)
    } else {
        last_at(runs.drop_last(), vcn)
    }
}

/// The cluster behind a run.
pub open spec fn run_end(r: Run) -> int {
    if r.vcn + r.len > u64::MAX {
        u64::MAX as int
    } else {
        r.vcn + r.len
    }
}

/// The run that holds cluster `vcn`.
pub open spec fn found(runs: Seq<Run>, vcn: int) -> Option<Run> {
    match last_at(runs, vcn) {
        Some(i) => if vcn < run_end(runs[i]) {
            Some(runs[i])
        } else {
            None
        },
        None => None,
    }
}

/// Of sorted runs the last one at or before `vcn` is the one before the first that
/// starts behind it.
proof fn lemma_last_at(runs: Seq<Run>, vcn: int, k: int)
    requires
        0 <= k <= runs.len(),
        forall|i: int| 0 <= i < k ==> (#[trigger] runs[i]).vcn <= vcn,
        forall|i: int| k <= i < runs.len() ==> (#[trigger] runs[i]).vcn > vcn,
    ensures
        last_at(runs, vcn) == if k == 0 {
            None
        } else {
            Some(k - 1)
        },
    decreases runs.len(),
{
    if runs.len() > k {
        let d = runs.drop_last();
        assert forall|i: int| 0 <= i < k implies (#[trigger] d[i]).vcn <= vcn by {
            assert(d[i] == runs[i]);
        }
        assert forall|i: int| k <= i < d.len() implies (#[trigger] d[i]).vcn > vcn by {
            assert(d[i] == runs[i]);
        }
        lemma_last_at(d, vcn, k);
    }
}

impl RunList {
    pub open spec fn inv(self) -> bool {
        sorted(self.runs@)
    }

    /// The run that holds the byte at `offset` of the file.
    pub fn find(&self, offset: u64, cluster_size: u64) -> (r: Option<Run>)
        requires
            self.inv(),
            cluster_size > 0,
        ensures
            r == found(self.runs@, offset as int / cluster_size as int),
    {
        let vcn: u64 = offset / cluster_size;
        let mut lo: usize = 0;
        let mut hi: usize = self.runs.len();
        while lo < hi
            invariant
                self.inv(),
                lo <= hi <= self.runs@.len(),
                forall|i: int| 0 <= i < lo ==> (#[trigger] self.runs@[i]).vcn <= vcn,
                forall|i: int| hi <= i < self.runs@.len() ==> (#[trigger] self.runs@[i]).vcn > vcn,
            decreases hi - lo,
        {
            let mid: usize = lo + (hi - lo) / 2;
            if self.runs[mid].vcn <= vcn {
                lo = mid + 1;
            } else {
                hi = mid;
            }
        }
        proof {
            lemma_last_at(self.runs@, vcn as int, lo as int);
        }
        if lo == 0 {
            return None;
        }
        let r: Run = self.runs[lo - 1];
        let end: u64 = match r.vcn.checked_add(r.len) {
            Some(e) => e,
            None => u64::MAX,
        };
        if vcn < end {
            Some(r)
        } else {
            None
        }
    }
}

/// How many bytes of a run are read at once from position `pos` of the file on,
/// where `left` are wanted.
pub open spec fn span(run: Run, cs: int, pos: int, left: int) -> int {
    let avail = run.len * cs - (pos - run.vcn * cs);
    let most = if left < MAX_READ_BYTES {
        left
    } else {
        MAX_READ_BYTES as int
    };
    if avail < most {
        avail
    } else {
        most
    }
}

/// The byte counts of a run can be written down.
pub open spec fn is_countable(run: Run, cs: int) -> bool {
    run.vcn * cs <= u64::MAX && run.len * cs <= u64::MAX
}

/// The sector of the volume that holds position `pos` of the file.
pub open spec fn sector_of(run: Run, boot: BootSector, pos: int) -> int {
    run.lcn * boot.sectors_per_cluster + (pos - run.vcn * boot.cluster()) / 512
}

/// The sectors that `n` bytes from position `pos` on touch lie on the volume.
pub open spec fn on_volume(run: Run, boot: BootSector, pos: int, n: int) -> bool {
    let lba = sector_of(run, boot, pos);
    &&& lba <= i64::MAX
    &&& lba + ((pos - run.vcn * boot.cluster()) % 512 + n + 511) / 512 <= boot.total_sectors
}

/// The bytes of one span.
pub open spec fn span_bytes(
    disk: spec_fn(int) -> u8,
    run: Run,
    boot: BootSector,
    pos: int,
    n: int,
) -> Seq<u8> {
    if run.lcn < 0 {
        Seq::new(n as nat, |i: int| 0u8)
    } else {
        crate::fat32::io::disk_range(
            disk,
            sector_of(run, boot, pos) * 512 + (pos - run.vcn * boot.cluster()) % 512,
            n,
        )
    }
}

/// The bytes of a file from position `pos` on, `left` at most: fewer where no run
/// holds the next byte. Nothing where a run does not lie on the volume.
pub open spec fn content(
    disk: spec_fn(int) -> u8,
    boot: BootSector,
    runs: Seq<Run>,
    pos: int,
    left: int,
) -> Option<Seq<u8>>
    decreases left,
{
    if left <= 0 {
        Some(Seq::empty())
    } else {
        match found(runs, pos / boot.cluster()) {
            None => Some(Seq::empty()),
            Some(run) => {
                let n = span(run, boot.cluster(), pos, left);
                if !is_countable(run, boot.cluster()) || n <= 0 || pos + n > u64::MAX || (run.lcn
                    >= 0 && !on_volume(run, boot, pos, n)) {
                    None
                } else {
                    match content(disk, boot, runs, pos + n, left - n) {
                        Some(more) => Some(span_bytes(disk, run, boot, pos, n) + more),
                        None => None,
                    }
                }
            },
        }
    }
}

/// Reading `left` bytes from position `pos` on meets holes only.
pub open spec fn holes_only(boot: BootSector, runs: Seq<Run>, pos: int, left: int) -> bool
    decreases left,
{
    left <= 0 || match found(runs, pos / boot.cluster()) {
        None => true,
        Some(run) => {
            let n = span(run, boot.cluster(), pos, left);
            run.lcn < 0 && n > 0 && holes_only(boot, runs, pos + n, left - n)
        },
    }
}

/// A run that holds a cluster has bytes from any place in that cluster on.
proof fn lemma_span(run: Run, cs: int, pos: int, left: int)
    requires
        cs > 0,
        left > 0,
        run.vcn <= pos / cs < run_end(run),
    ensures
        0 < span(run, cs, pos, left) <= left,
        span(run, cs, pos, left) <= MAX_READ_BYTES,
        run.vcn * cs <= pos,
{
    vstd::arithmetic::div_mod::lemma_fundamental_div_mod(pos, cs);
    let q = pos / cs;
    assert(run.vcn * cs <= q * cs) by (nonlinear_arith)
        requires
            run.vcn <= q,
            cs > 0,
    ;
    assert((q + 1) * cs <= (run.vcn + run.len) * cs) by (nonlinear_arith)
        requires
            q + 1 <= run.vcn + run.len,
            cs > 0,
    ;
    assert((run.vcn + run.len) * cs == run.vcn * cs + run.len * cs) by (nonlinear_arith);
    assert((q + 1) * cs == q * cs + cs) by (nonlinear_arith);
    assert(q * cs == cs * q) by (nonlinear_arith);
}

/// A run that was found holds the cluster.
proof fn lemma_found(runs: Seq<Run>, vcn: int)
    ensures
        found(runs, vcn) matches Some(r) ==> r.vcn <= vcn < run_end(r),
    decreases runs.len(),
{
    lemma_last_at_bound(runs, vcn);
}

proof fn lemma_last_at_bound(runs: Seq<Run>, vcn: int)
    ensures
        last_at(runs, vcn) matches Some(i) ==> 0 <= i < runs.len() && runs[i].vcn <= vcn,
    decreases runs.len(),
{
    if runs.len() > 0 && runs.last().vcn > vcn {
        lemma_last_at_bound(runs.drop_last(), vcn);
    }
}

/// Reads one span of a run into a vector of its own.
fn read_span<D: BlockDevice>(
    device: &mut D,
    boot: &BootSector,
    run: Run,
    pos: u64,
    n: u64,
    why: &mut LastError,
) -> (r: Result<Vec<u8>, VfsError>)
    requires
        old(device).sector_len() == 512,
        boot.inv(),
        is_countable(run, boot.cluster()),
        run.vcn * boot.cluster() <= pos,
        0 < n <= MAX_READ_BYTES,
    ensures
        crate::fat32::io::same_device(*final(device), *old(device)),
        final(device).disk() == old(device).disk(),
        r is Err ==> r->Err_0 == VfsError::IOError && run.lcn >= 0 && (on_volume(
            run,
            *boot,
            pos as int,
            n as int,
        ) ==> crate::blockdriver::traits::faults(*final(device))
            > crate::blockdriver::traits::faults(*old(device))),
        run.lcn < 0 ==> *final(device) == *old(device),
        r is Ok ==> crate::blockdriver::traits::faults(*final(device))
            == crate::blockdriver::traits::faults(*old(device)) && *final(why) == *old(why),
        r is Err ==> final(why).noted(
            *old(why),
            crate::ntfs::detail::fault_text(*old(device), *final(device)),
        ),
        r is Ok ==> r->Ok_0@ == span_bytes(old(device).disk(), run, *boot, pos as int, n as int),
        r is Ok && run.lcn >= 0 ==> on_volume(run, *boot, pos as int, n as int),
{
    if run.lcn < 0 {
        let mut out: Vec<u8> = Vec::new();
        let mut i: u64 = 0;
        while i < n
            invariant
                i <= n,
                out@.len() == i,
                forall|k: int| 0 <= k < i ==> #[trigger] out@[k] == 0,
            decreases n - i,
        {
            out.push(0);
            i = i + 1;
        }
        assert(out@ =~= span_bytes(old(device).disk(), run, *boot, pos as int, n as int));
        return Ok(out);
    }
    let cs: u64 = boot.cluster_size();
    let in_run: u64 = pos - run.vcn * cs;
    proof {
        assert(0 <= run.lcn * boot.sectors_per_cluster <= i64::MAX * 128) by (nonlinear_arith)
            requires
                0 <= run.lcn <= i64::MAX,
                0 <= boot.sectors_per_cluster <= 128,
        ;
    }
    let sector: i128 = run.lcn as i128 * boot.sectors_per_cluster as i128 + (in_run / 512) as i128;
    if sector > i64::MAX as i128 {
        return Err(VfsError::IOError);
    }
    let lba: u64 = sector as u64;
    let sector_off: u64 = in_run % 512;
    let secs: u64 = (sector_off + n + 511) / 512;
    if lba >= boot.total_sectors || secs > boot.total_sectors - lba {
        return Err(VfsError::IOError);
    }
    let tmp: Vec<u8> = match read_sectors(device, lba, secs as u32, why) {
        Ok(v) => v,
        Err(e) => return Err(e),
    };
    let out: Vec<u8> = crate::bytes::sub_vec(&tmp, sector_off as usize, (sector_off + n) as usize);
    assert(out@ =~= span_bytes(old(device).disk(), run, *boot, pos as int, n as int));
    Ok(out)
}

/// Reads `len` bytes of a file from position `offset` on, or as many as its runs
/// hold.
pub fn read_file_at<D: BlockDevice>(
    device: &mut D,
    boot: &BootSector,
    runs: &RunList,
    offset: u64,
    len: usize,
    why: &mut LastError,
) -> (r: Result<Vec<u8>, VfsError>)
    requires
        old(device).sector_len() == 512,
        boot.inv(),
        runs.inv(),
    ensures
        crate::fat32::io::same_device(*final(device), *old(device)),
        final(device).disk() == old(device).disk(),
        match r {
            Ok(v) => content(old(device).disk(), *boot, runs.runs@, offset as int, len as int)
                == Some(v@) && v@.len() <= len && crate::blockdriver::traits::faults(*final(device))
                == crate::blockdriver::traits::faults(*old(device)) && *final(why) == *old(why),
            Err(e) => e == VfsError::IOError && final(why).noted(
                *old(why),
                crate::ntfs::detail::fault_text(*old(device), *final(device)),
            ) && (content(
                old(device).disk(),
                *boot,
                runs.runs@,
                offset as int,
                len as int,
            ) is Some ==> crate::blockdriver::traits::faults(*final(device))
                > crate::blockdriver::traits::faults(*old(device))),
        },
        holes_only(*boot, runs.runs@, offset as int, len as int) ==> *final(device) == *old(device),
{
    let cs: u64 = boot.cluster_size();
    let mut out: Vec<u8> = Vec::new();
    let mut pos: u64 = offset;
    let ghost disk = device.disk();
    let ghost whole = content(disk, *boot, runs.runs@, offset as int, len as int);
    let ghost holes = holes_only(*boot, runs.runs@, offset as int, len as int);
    assert(whole is Some ==> out@ + whole->0 =~= whole->0);
    while out.len() < len
        invariant
            device.sector_len() == 512,
            crate::fat32::io::same_device(*device, *old(device)),
            crate::blockdriver::traits::faults(*device) == crate::blockdriver::traits::faults(
                *old(device),
            ),
            *why == *old(why),
            device.disk() == disk,
            disk == old(device).disk(),
            boot.inv(),
            runs.inv(),
            cs == boot.cluster(),
            cs > 0,
            out@.len() <= len,
            whole == content(disk, *boot, runs.runs@, offset as int, len as int),
            holes == holes_only(*boot, runs.runs@, offset as int, len as int),
            holes ==> holes_only(*boot, runs.runs@, pos as int, len - out@.len()) && *device
                == *old(device),
            whole is Some <==> content(
                disk,
                *boot,
                runs.runs@,
                pos as int,
                len - out@.len(),
            ) is Some,
            whole is Some ==> whole->0 == out@ + content(
                disk,
                *boot,
                runs.runs@,
                pos as int,
                len - out@.len(),
            )->0,
        ensures
            whole == Some(out@),
            out@.len() <= len,
            crate::fat32::io::same_device(*device, *old(device)),
            device.disk() == disk,
            crate::blockdriver::traits::faults(*device) == crate::blockdriver::traits::faults(
                *old(device),
            ),
            *why == *old(why),
            holes ==> *device == *old(device),
        decreases len - out@.len(),
    {
        let left: u64 = (len - out.len()) as u64;
        match runs.find(pos, cs) {
            None => {
                assert(out@ + Seq::<u8>::empty() =~= out@);
                break;
            },
            Some(run) => {
                proof {
                    lemma_found(runs.runs@, pos as int / cs as int);
                    lemma_span(run, cs as int, pos as int, left as int);
                }
                let start: u64 = match run.vcn.checked_mul(cs) {
                    Some(v) => v,
                    None => return Err(VfsError::IOError),
                };
                let whole_run: u64 = match run.len.checked_mul(cs) {
                    Some(v) => v,
                    None => return Err(VfsError::IOError),
                };
                let in_run: u64 = pos - start;
                let avail: u64 = whole_run - in_run;
                let most: u64 = if left < MAX_READ_BYTES {
                    left
                } else {
                    MAX_READ_BYTES
                };
                let n: u64 = if avail < most {
                    avail
                } else {
                    most
                };
                assert(n == span(run, cs as int, pos as int, left as int));
                if n > u64::MAX - pos {
                    return Err(VfsError::IOError);
                }
                let mut part: Vec<u8> = match read_span(device, boot, run, pos, n, why) {
                    Ok(v) => v,
                    Err(e) => return Err(e),
                };
                let ghost before = out@;
                let ghost bytes = part@;
                let ghost more = content(
                    disk,
                    *boot,
                    runs.runs@,
                    pos + n,
                    len - out@.len() - n,
                );
                out.append(&mut part);
                assert(more is Some ==> before + (bytes + more->0) =~= out@ + more->0);
                pos = pos + n;
                if out.len() >= len {
                    assert(out@ + Seq::<u8>::empty() =~= out@);
                }
            },
        }
    }
    Ok(out)
}

/// No two runs hold the same cluster, and they stand in the order of their
/// clusters.
pub open spec fn disjoint(runs: Seq<Run>) -> bool {
    forall|i: int, j: int|
        #![trigger runs[i], runs[j]]
        0 <= i < j < runs.len() ==> runs[i].vcn + runs[i].len <= runs[j].vcn
}

/// The byte at position `pos` of a file: zero in a hole, and what the volume holds
/// at the place to which the run takes it elsewhere.
pub open spec fn file_byte(
    disk: spec_fn(int) -> u8,
    boot: BootSector,
    runs: Seq<Run>,
    pos: int,
) -> u8 {
    match found(runs, pos / boot.cluster()) {
        Some(run) => if run.lcn < 0 {
            0
        } else {
            disk(run.lcn * boot.cluster() + pos - run.vcn * boot.cluster())
        },
        None => 0,
    }
}

/// Every cluster of a run leads to that run, where runs are disjoint.
proof fn lemma_found_again(runs: Seq<Run>, v: int, w: int)
    requires
        sorted(runs),
        disjoint(runs),
        found(runs, v) is Some,
        v <= w < run_end(found(runs, v)->0),
    ensures
        found(runs, w) == found(runs, v),
{
    lemma_last_at_bound(runs, v);
    let k = last_at(runs, v)->0;
    assert forall|i: int| 0 <= i < k + 1 implies (#[trigger] runs[i]).vcn <= w by {
        assert(runs[i].vcn <= runs[k].vcn);
    }
    assert forall|i: int| k + 1 <= i < runs.len() implies (#[trigger] runs[i]).vcn > w by {
        assert(runs[k].vcn + runs[k].len <= runs[i].vcn);
    }
    lemma_last_at(runs, w, k + 1);
}

/// What is read of a file is, byte for byte, what its runs say, however the reads
/// are cut up.
pub proof fn law_content_is_the_file(
    disk: spec_fn(int) -> u8,
    boot: BootSector,
    runs: Seq<Run>,
    pos: int,
    left: int,
    i: int,
)
    requires
        boot.inv(),
        sorted(runs),
        disjoint(runs),
        pos >= 0,
        content(disk, boot, runs, pos, left) is Some,
        0 <= i < content(disk, boot, runs, pos, left)->0.len(),
    ensures
        content(disk, boot, runs, pos, left)->0[i] == file_byte(disk, boot, runs, pos + i),
        found(runs, (pos + i) / boot.cluster()) is Some,
    decreases left,
{
    let cs = boot.cluster();
    let run = found(runs, pos / cs)->0;
    let n = span(run, cs, pos, left);
    lemma_found(runs, pos / cs);
    lemma_span(run, cs, pos, left);
    if i >= n {
        law_content_is_the_file(disk, boot, runs, pos + n, left - n, i - n);
    } else {
        let p = pos + i;
        vstd::arithmetic::div_mod::lemma_div_is_ordered(pos, p, cs);
        assert(p < (run.vcn + run.len) * cs) by {
            assert((run.vcn + run.len) * cs == run.vcn * cs + run.len * cs) by (nonlinear_arith);
        }
        vstd::arithmetic::div_mod::lemma_fundamental_div_mod(p, cs);
        assert(p / cs < run.vcn + run.len) by (nonlinear_arith)
            requires
                p < (run.vcn + run.len) * cs,
                p == cs * (p / cs) + p % cs,
                0 <= p % cs,
                cs > 0,
        ;
        assert(p / cs < u64::MAX) by (nonlinear_arith)
            requires
                p <= u64::MAX,
                cs >= 512,
                p == cs * (p / cs) + p % cs,
                0 <= p % cs,
        ;
        lemma_found_again(runs, pos / cs, p / cs);
        if run.lcn >= 0 {
            let in_run = pos - run.vcn * cs;
            assert(run.lcn * cs == run.lcn * boot.sectors_per_cluster * 512) by (nonlinear_arith)
                requires
                    cs == 512 * boot.sectors_per_cluster,
            ;
            assert(sector_of(run, boot, pos) * 512 + in_run % 512 + i == run.lcn * cs + p - run.vcn
                * cs);
        }
    }
}

} // verus!
