//! Finding, taking and freeing clusters.

use vstd::prelude::*;

use crate::blockdriver::traits::BlockDevice;
use crate::fat32::bitmap::AllocBitmap;
use crate::fat32::superblock::{Fat32SuperBlock, EOC_MARKER, FREE_CLUSTER};
use crate::vfs::VfsError;

verus! {

/// The place `off` steps after `start` on a round of `total` places.
pub open spec fn round(total: int, start: int, off: int) -> int {
    (start + off) % total
}

/// There are `count` places from place `s` on, and none of them is used.
pub open spec fn is_free_run(used: spec_fn(int) -> bool, total: int, s: int, count: int) -> bool {
    s + count <= total && forall|i: int| s <= i < s + count ==> !#[trigger] used(i)
}

/// None of the `count` places from the one at step `off` on is used.
pub open spec fn window_free(
    used: spec_fn(int) -> bool,
    total: int,
    start: int,
    off: int,
    count: int,
) -> bool {
    is_free_run(used, total, round(total, start, off), count)
}

/// Every place is at some step of a round.
pub proof fn lemma_round_reaches(total: int, start: int, i: int)
    requires
        0 < total,
        0 <= i < total,
    ensures
        0 <= (i - start) % total < total,
        round(total, start, (i - start) % total) == i,
{
    vstd::arithmetic::div_mod::lemma_add_mod_noop(start, i - start, total);
    vstd::arithmetic::div_mod::lemma_add_mod_noop_right(start, i - start, total);
    vstd::arithmetic::div_mod::lemma_small_mod(i as nat, total as nat);
}

/// The search finds what is unused.
proof fn lemma_free_found(used: spec_fn(int) -> bool, total: int, start: int, off: int, o: int)
    requires
        0 < total,
        0 <= o < off,
        !used(round(total, start, o)),
    ensures
        free_prefix(used, total, start, off).contains(round(total, start, o)),
    decreases off,
{
    let now = free_prefix(used, total, start, off);
    if o < off - 1 {
        lemma_free_found(used, total, start, off - 1, o);
        let prev = free_prefix(used, total, start, off - 1);
        let k = choose|k: int| 0 <= k < prev.len() && prev[k] == round(total, start, o);
        assert(now[k] == prev[k]);
    } else {
        assert(now[now.len() - 1] == round(total, start, o));
    }
}

/// There are no more unused places than the search finds.
pub proof fn lemma_free_count(used: spec_fn(int) -> bool, total: int, start: int, v: Seq<int>)
    requires
        0 < total,
        v.no_duplicates(),
        forall|j: int| 0 <= j < v.len() ==> 0 <= #[trigger] v[j] < total && !used(v[j]),
    ensures
        v.len() <= free_prefix(used, total, start, total).len(),
{
    let all = free_prefix(used, total, start, total);
    lemma_free_prefix(used, total, start, total);
    v.unique_seq_to_set();
    all.unique_seq_to_set();
    assert forall|x: int| v.to_set().contains(x) implies all.to_set().contains(x) by {
        let j = choose|j: int| 0 <= j < v.len() && v[j] == x;
        lemma_round_reaches(total, start, x);
        lemma_free_found(used, total, start, total, (x - start) % total);
    }
    vstd::set_lib::lemma_len_subset(v.to_set(), all.to_set());
}

/// A run of unused places is found wherever there is one.
pub proof fn lemma_run_is_window(
    used: spec_fn(int) -> bool,
    total: int,
    start: int,
    s: int,
    count: int,
)
    requires
        0 < total,
        0 < count,
        0 <= s,
        is_free_run(used, total, s, count),
    ensures
        !has_no_window(used, total, start, count),
{
    lemma_round_reaches(total, start, s);
    assert(window_free(used, total, start, (s - start) % total, count));
}

/// The unused places among the first `off` steps, in the order of the steps.
pub open spec fn free_prefix(
    used: spec_fn(int) -> bool,
    total: int,
    start: int,
    off: int,
) -> Seq<int>
    decreases off,
{
    if off <= 0 {
        Seq::empty()
    } else {
        let prev = free_prefix(used, total, start, off - 1);
        let i = round(total, start, off - 1);
        if used(i) {
            prev
        } else {
            prev.push(i)
        }
    }
}

/// `picked` is the first window of `count` unused places, or, where there is none,
/// the first `count` unused places.
pub open spec fn is_pick(
    used: spec_fn(int) -> bool,
    total: int,
    start: int,
    count: int,
    picked: Seq<int>,
) -> bool {
    ||| exists|off: int| #[trigger]
        is_first_window(used, total, start, off, count) && picked == Seq::new(
            count as nat,
            |k: int| round(total, start, off) + k,
        )
    ||| has_no_window(used, total, start, count) && free_prefix(used, total, start, total).len()
        >= count && picked == free_prefix(used, total, start, total).take(count)
}

/// A window of `count` unused places starts at step `off` and at none before.
pub open spec fn is_first_window(
    used: spec_fn(int) -> bool,
    total: int,
    start: int,
    off: int,
    count: int,
) -> bool {
    &&& count <= total
    &&& 0 <= off < total
    &&& window_free(used, total, start, off, count)
    &&& forall|o: int| 0 <= o < off ==> !#[trigger] window_free(used, total, start, o, count)
}

pub open spec fn has_no_window(
    used: spec_fn(int) -> bool,
    total: int,
    start: int,
    count: int,
) -> bool {
    count > total || forall|o: int|
        0 <= o < total ==> !#[trigger] window_free(used, total, start, o, count)
}

/// Different steps of one round come to different places.
pub proof fn lemma_round_distinct(total: int, start: int, a: int, b: int)
    requires
        0 < total,
        a < b < a + total,
    ensures
        round(total, start, a) != round(total, start, b),
        0 <= round(total, start, a) < total,
{
    let x = start + a;
    let y = start + b;
    vstd::arithmetic::div_mod::lemma_fundamental_div_mod(x, total);
    vstd::arithmetic::div_mod::lemma_fundamental_div_mod(y, total);
    let qx = x / total;
    let qy = y / total;
    if x % total == y % total {
        assert(total * qy - total * qx == b - a);
        assert(total * qy - total * qx == total * (qy - qx)) by (nonlinear_arith);
        let q = qy - qx;
        assert(false) by (nonlinear_arith)
            requires
                0 < total * q < total,
                total > 0,
        ;
    }
}

/// What the search from `start` has found is unused, in range and without repetition.
pub proof fn lemma_free_prefix(used: spec_fn(int) -> bool, total: int, start: int, off: int)
    requires
        0 < total,
        0 <= off <= total,
    ensures
        free_prefix(used, total, start, off).no_duplicates(),
        free_prefix(used, total, start, off).len() <= off,
        forall|j: int|
            0 <= j < free_prefix(used, total, start, off).len() ==> {
                let i = #[trigger] free_prefix(used, total, start, off)[j];
                0 <= i < total && !used(i) && exists|o: int|
                    0 <= o < off && i == #[trigger] round(total, start, o)
            },
    decreases off,
{
    if off > 0 {
        lemma_free_prefix(used, total, start, off - 1);
        let prev = free_prefix(used, total, start, off - 1);
        let i = round(total, start, off - 1);
        let now = free_prefix(used, total, start, off);
        assert(0 <= i < total);
        assert forall|j: int| 0 <= j < prev.len() implies prev[j] != i by {
            let o = choose|o: int| 0 <= o < off - 1 && prev[j] == #[trigger] round(total, start, o);
            lemma_round_distinct(total, start, o, off - 1);
        }
        assert forall|j: int| 0 <= j < now.len() implies {
            let x = #[trigger] now[j];
            0 <= x < total && !used(x) && exists|o: int|
                0 <= o < off && x == #[trigger] round(total, start, o)
        } by {
            if j < prev.len() {
                assert(now[j] == prev[j]);
                let o = choose|o: int|
                    0 <= o < off - 1 && prev[j] == #[trigger] round(total, start, o);
                assert(now[j] == round(total, start, o));
            } else {
                assert(now[j] == round(total, start, off - 1));
            }
        }
    }
}

/// A longer search begins with what a shorter one found.
pub proof fn lemma_free_prefix_grows(
    used: spec_fn(int) -> bool,
    total: int,
    start: int,
    a: int,
    b: int,
)
    requires
        0 <= a <= b,
    ensures
        free_prefix(used, total, start, a).is_prefix_of(free_prefix(used, total, start, b)),
    decreases b,
{
    if a < b {
        lemma_free_prefix_grows(used, total, start, a, b - 1);
    }
}

/// The search depends on what is used only.
pub proof fn lemma_free_prefix_same(
    used: spec_fn(int) -> bool,
    other: spec_fn(int) -> bool,
    total: int,
    start: int,
    off: int,
)
    requires
        0 < total,
        forall|i: int| 0 <= i < total ==> used(i) == #[trigger] other(i),
    ensures
        free_prefix(used, total, start, off) == free_prefix(other, total, start, off),
    decreases off,
{
    if off > 0 {
        lemma_free_prefix_same(used, other, total, start, off - 1);
        assert(0 <= round(total, start, off - 1) < total);
        assert(used(round(total, start, off - 1)) == other(round(total, start, off - 1)));
    }
}

impl AllocBitmap {
    /// What is used, by this bitmap.
    pub open spec fn used(self) -> spec_fn(int) -> bool {
        |i: int| self.bit(i)
    }

    /// The place `off` steps after `start` on a round of `total` places.
    fn step(total: u32, start: u32, off: u64) -> (r: usize)
        requires
            0 < total,
            off <= 0x2_0000_0000,
        ensures
            r == round(total as int, start as int, off as int),
            r < total,
    {
        ((start as u64 + off) % (total as u64)) as usize
    }

    /// All `count` places from the one at step `off` on are unused.
    fn is_window_free(&self, total: u32, start: u32, off: u32, count: u32) -> (r: bool)
        requires
            0 < total <= self.capacity(),
        ensures
            r == window_free(self.used(), total as int, start as int, off as int, count as int),
    {
        let s: usize = Self::step(total, start, off as u64);
        if count as u64 > total as u64 - s as u64 {
            return false;
        }
        let mut k: u32 = 0;
        while k < count
            invariant
                k <= count,
                s == round(total as int, start as int, off as int),
                s + count <= total <= self.capacity(),
                forall|i: int| s <= i < s + k ==> !#[trigger] (self.used())(i),
            decreases count - k,
        {
            let i: usize = s + k as usize;
            if self.get(i) {
                assert((self.used())(i as int));
                return false;
            }
            k = k + 1;
        }
        true
    }

    /// The first step at which a window of `count` unused places starts.
    fn find_window(&self, total: u32, start: u32, count: u32) -> (r: Option<u32>)
        requires
            0 < total <= self.capacity(),
        ensures
            match r {
                Some(off) => is_first_window(
                    self.used(),
                    total as int,
                    start as int,
                    off as int,
                    count as int,
                ),
                None => has_no_window(self.used(), total as int, start as int, count as int),
            },
    {
        if count > total {
            return None;
        }
        let mut off: u32 = 0;
        while off < total
            invariant
                off <= total,
                0 < total <= self.capacity(),
                count <= total,
                forall|o: int|
                    0 <= o < off ==> !#[trigger] window_free(
                        self.used(),
                        total as int,
                        start as int,
                        o,
                        count as int,
                    ),
            decreases total - off,
        {
            if self.is_window_free(total, start, off, count) {
                return Some(off);
            }
            off = off + 1;
        }
        None
    }

    /// The first `count` unused places from `start` on, or none where there are fewer.
    fn gather_free(&self, total: u32, start: u32, count: u32) -> (r: Option<Vec<u32>>)
        requires
            0 < total <= self.capacity(),
        ensures
            ({
                let all = free_prefix(self.used(), total as int, start as int, total as int);
                match r {
                    Some(v) => all.len() >= count && v@.map_values(|x: u32| x as int) == all.take(
                        count as int,
                    ),
                    None => all.len() < count,
                }
            }),
    {
        let mut v: Vec<u32> = Vec::new();
        let mut off: u32 = 0;
        let ghost all = free_prefix(self.used(), total as int, start as int, total as int);
        while off < total && v.len() < count as usize
            invariant
                off <= total,
                0 < total <= self.capacity(),
                v@.len() <= count,
                v@.map_values(|x: u32| x as int) == free_prefix(
                    self.used(),
                    total as int,
                    start as int,
                    off as int,
                ),
            decreases total - off,
        {
            let i: usize = Self::step(total, start, off as u64);
            let ghost prev = v@;
            if !self.get(i) {
                v.push(i as u32);
                assert(v@.map_values(|x: u32| x as int) =~= prev.map_values(|x: u32| x as int).push(
                    i as int,
                ));
            }
            assert(self.used()(i as int) == self.bit(i as int));
            off = off + 1;
        }
        proof {
            lemma_free_prefix_grows(
                self.used(),
                total as int,
                start as int,
                off as int,
                total as int,
            );
            let part = free_prefix(self.used(), total as int, start as int, off as int);
            assert(part.len() == v@.len());
            if v@.len() == count {
                assert(all.take(count as int) =~= part);
            }
        }
        if v.len() < count as usize {
            None
        } else {
            Some(v)
        }
    }

    /// Picks `count` unused places: a window where there is one, else whatever is
    /// unused, searching from `start` on.
    pub fn pick(&self, total: u32, start: u32, count: u32) -> (r: Option<Vec<u32>>)
        requires
            0 < total <= self.capacity(),
        ensures
            match r {
                Some(v) => is_pick(
                    self.used(),
                    total as int,
                    start as int,
                    count as int,
                    v@.map_values(|x: u32| x as int),
                ),
                None => has_no_window(self.used(), total as int, start as int, count as int)
                    && free_prefix(self.used(), total as int, start as int, total as int).len()
                    < count,
            },
    {
        match self.find_window(total, start, count) {
            Some(off) => {
                let s: usize = Self::step(total, start, off as u64);
                let mut v: Vec<u32> = Vec::new();
                let mut k: u32 = 0;
                while k < count
                    invariant
                        k <= count,
                        s + count <= total,
                        v@.len() == k,
                        forall|j: int| 0 <= j < k ==> #[trigger] v@[j] == s + j,
                    decreases count - k,
                {
                    v.push(s as u32 + k);
                    k = k + 1;
                }
                assert(v@.map_values(|x: u32| x as int) =~= Seq::new(
                    count as nat,
                    |k: int| round(total as int, start as int, off as int) + k,
                ));
                Some(v)
            },
            None => self.gather_free(total, start, count),
        }
    }
}

/// What was picked is unused, in range and without repetition.
pub proof fn lemma_pick(
    used: spec_fn(int) -> bool,
    total: int,
    start: int,
    count: int,
    picked: Seq<int>,
)
    requires
        0 < total,
        0 <= count,
        is_pick(used, total, start, count, picked),
    ensures
        picked.len() == count,
        picked.no_duplicates(),
        forall|j: int|
            0 <= j < picked.len() ==> 0 <= #[trigger] picked[j] < total && !used(picked[j]),
        count <= free_prefix(used, total, start, total).len(),
        !has_no_window(used, total, start, count) ==> forall|j: int|
            0 <= j < picked.len() ==> #[trigger] picked[j] == picked[0] + j,
{
    lemma_pick_parts(used, total, start, count, picked);
    lemma_free_count(used, total, start, picked);
}

proof fn lemma_pick_parts(
    used: spec_fn(int) -> bool,
    total: int,
    start: int,
    count: int,
    picked: Seq<int>,
)
    requires
        0 < total,
        0 <= count,
        is_pick(used, total, start, count, picked),
    ensures
        picked.len() == count,
        picked.no_duplicates(),
        forall|j: int|
            0 <= j < picked.len() ==> 0 <= #[trigger] picked[j] < total && !used(picked[j]),
        !has_no_window(used, total, start, count) ==> forall|j: int|
            0 <= j < picked.len() ==> #[trigger] picked[j] == picked[0] + j,
{
    if exists|off: int| #[trigger]
        is_first_window(used, total, start, off, count) && picked == Seq::new(
            count as nat,
            |k: int| round(total, start, off) + k,
        ) {
        let off = choose|off: int| #[trigger]
            is_first_window(used, total, start, off, count) && picked == Seq::new(
                count as nat,
                |k: int| round(total, start, off) + k,
            );
        assert(0 <= round(total, start, off) < total);
        assert forall|j: int| 0 <= j < picked.len() implies 0 <= #[trigger] picked[j] < total
            && !used(picked[j]) by {
            assert(!used(round(total, start, off) + j));
        }
    } else {
        lemma_free_prefix(used, total, start, total);
        let all = free_prefix(used, total, start, total);
        assert(picked =~= all.take(count));
        assert forall|j: int| 0 <= j < picked.len() implies 0 <= #[trigger] picked[j] < total
            && !used(picked[j]) by {
            assert(picked[j] == all[j]);
        }
    }
}

/// `x` is one of the first `n` elements of `v`.
pub open spec fn among(v: Seq<u32>, n: int, x: int) -> bool {
    exists|k: int| 0 <= k < n && #[trigger] v[k] == x
}

impl AllocBitmap {
    /// Sets the bits of all places in `v`.
    fn set_all(&mut self, v: &Vec<u32>)
        requires
            forall|k: int| 0 <= k < v@.len() ==> #[trigger] v@[k] < old(self).capacity(),
        ensures
            final(self).capacity() == old(self).capacity(),
            forall|j: int|
                0 <= j < old(self).capacity() ==> #[trigger] final(self).bit(j) == (old(self).bit(j)
                    || among(v@, v@.len() as int, j)),
    {
        let mut i: usize = 0;
        while i < v.len()
            invariant
                i <= v@.len(),
                self.capacity() == old(self).capacity(),
                forall|k: int| 0 <= k < v@.len() ==> #[trigger] v@[k] < old(self).capacity(),
                forall|j: int|
                    0 <= j < old(self).capacity() ==> #[trigger] self.bit(j) == (old(self).bit(j)
                        || among(v@, i as int, j)),
            decreases v@.len() - i,
        {
            let ghost before = *self;
            self.set(v[i] as usize);
            assert forall|j: int| 0 <= j < old(self).capacity() implies #[trigger] self.bit(j) == (
            old(self).bit(j) || among(v@, i + 1, j)) by {
                assert(before.bit(j) == (old(self).bit(j) || among(v@, i as int, j)));
                if j == v@[i as int] {
                    assert(among(v@, i + 1, j));
                }
                if among(v@, i as int, j) {
                    let k = choose|k: int| 0 <= k < i && #[trigger] v@[k] == j;
                    assert(among(v@, i + 1, j));
                }
            }
            i = i + 1;
        }
    }

    /// Clears the bits of all places in `v`.
    fn clear_all(&mut self, v: &Vec<u32>)
        requires
            forall|k: int| 0 <= k < v@.len() ==> #[trigger] v@[k] < old(self).capacity(),
        ensures
            final(self).capacity() == old(self).capacity(),
            forall|j: int|
                0 <= j < old(self).capacity() ==> #[trigger] final(self).bit(j) == (old(self).bit(j)
                    && !among(v@, v@.len() as int, j)),
    {
        let mut i: usize = 0;
        while i < v.len()
            invariant
                i <= v@.len(),
                self.capacity() == old(self).capacity(),
                forall|k: int| 0 <= k < v@.len() ==> #[trigger] v@[k] < old(self).capacity(),
                forall|j: int|
                    0 <= j < old(self).capacity() ==> #[trigger] self.bit(j) == (old(self).bit(j)
                        && !among(v@, i as int, j)),
            decreases v@.len() - i,
        {
            let ghost before = *self;
            self.clear(v[i] as usize);
            assert forall|j: int| 0 <= j < old(self).capacity() implies #[trigger] self.bit(j) == (
            old(self).bit(j) && !among(v@, i + 1, j)) by {
                assert(before.bit(j) == (old(self).bit(j) && !among(v@, i as int, j)));
                if j == v@[i as int] {
                    assert(among(v@, i + 1, j));
                }
                if among(v@, i as int, j) {
                    let k = choose|k: int| 0 <= k < i && #[trigger] v@[k] == j;
                    assert(among(v@, i + 1, j));
                }
            }
            i = i + 1;
        }
    }

    /// The two have the same bits.
    pub open spec fn same_bits(self, o: AllocBitmap) -> bool {
        &&& self.capacity() == o.capacity()
        &&& forall|j: int| 0 <= j < o.capacity() ==> #[trigger] self.bit(j) == o.bit(j)
    }
}

/// The clusters that the bits `picked` stand for.
fn clusters_of(picked: &Vec<u32>, total: u32) -> (r: Vec<u32>)
    requires
        total <= u32::MAX - 2,
        forall|k: int| 0 <= k < picked@.len() ==> #[trigger] picked@[k] < total,
    ensures
        r@.len() == picked@.len(),
        forall|k: int| 0 <= k < r@.len() ==> #[trigger] r@[k] == picked@[k] + 2,
{
    let mut out: Vec<u32> = Vec::new();
    let mut i: usize = 0;
    while i < picked.len()
        invariant
            i <= picked@.len(),
            total <= u32::MAX - 2,
            forall|k: int| 0 <= k < picked@.len() ==> #[trigger] picked@[k] < total,
            out@.len() == i,
            forall|k: int| 0 <= k < i ==> #[trigger] out@[k] == picked@[k] + 2,
        decreases picked@.len() - i,
    {
        assert(picked@[i as int] < total);
        out.push(picked[i] + 2);
        i = i + 1;
    }
    out
}

impl<D: BlockDevice> Fat32SuperBlock<D> {
    /// All but the table, the bitmap, the hint and the count of free clusters is as in `o`.
    pub open spec fn same_but_alloc(self, o: Self) -> bool {
        &&& self.bpb == o.bpb
        &&& self.next_ino == o.next_ino
        &&& self.ino_map == o.ino_map
        &&& self.handle_registry == o.handle_registry
        &&& self.open_handles == o.open_handles
        &&& self.unlinked_handles == o.unlinked_handles
        &&& self.next_handle == o.next_handle
        &&& self.chain_cache == o.chain_cache
        &&& self.volume_dirty == o.volume_dirty
        &&& crate::fat32::io::same_device(self.device, o.device)
    }

    /// The entries of the first `n` clusters of `v` are `val`, and all others as in `o`.
    pub open spec fn entries_set(self, o: Self, v: Seq<u32>, n: int, val: int) -> bool {
        forall|x: int|
            o.has_entry(x) ==> #[trigger] self.entry(x) == (if among(v, n, x) {
                val
            } else {
                o.entry(x)
            })
    }

    /// The entries of clusters other than those of `v` are as in `o`.
    pub open spec fn entries_kept(self, o: Self, v: Seq<u32>) -> bool {
        forall|x: int|
            o.has_entry(x) && !among(v, v.len() as int, x) ==> #[trigger] self.entry(x) == o.entry(
                x,
            )
    }

    /// Marks each cluster of `v` as the end of a chain. On failure, says how many
    /// were marked.
    fn mark_ends(&mut self, v: &Vec<u32>) -> (r: Result<(), (VfsError, usize)>)
        requires
            old(self).inv(),
            forall|k: int| 0 <= k < v@.len() ==> old(self).is_cluster(#[trigger] v@[k] as int),
        ensures
            final(self).inv(),
            final(self).same_rest(*old(self)),
            match r {
                Ok(_) => old(self).sound() ==> final(self).sound() && final(self).same_data(
                    *old(self),
                ) && final(self).entries_set(
                    *old(self),
                    v@,
                    v@.len() as int,
                    EOC_MARKER as int,
                ),
                Err((e, n)) => e == VfsError::IOError && n <= v@.len() && final(self).faults()
                    > old(self).faults() && (old(self).sound()
                    ==> final(self).sound() && final(self).same_data(*old(self))
                        && final(self).entries_kept(*old(self), v@)),
            },
    {
        let mut i: usize = 0;
        while i < v.len()
            invariant
                i <= v@.len(),
                self.inv(),
                self.same_rest(*old(self)),
                forall|k: int| 0 <= k < v@.len() ==> old(self).is_cluster(#[trigger] v@[k] as int),
                old(self).sound() ==> self.sound() && self.same_data(*old(self))
                    && self.entries_set(*old(self), v@, i as int, EOC_MARKER as int),
            decreases v@.len() - i,
        {
            let ghost before = *self;
            assert(old(self).is_cluster(v@[i as int] as int));
            let c: u32 = v[i];
            let w = self.write_fat_entry(c, EOC_MARKER);
            proof {
                if old(self).sound() {
                    assert(old(self).has_entry(c as int));
                    assert forall|x: int| old(self).has_entry(x) implies before.has_entry(x) by {}
                    if w is Ok {
                        assert forall|x: int| old(self).has_entry(x) implies #[trigger] self.entry(
                            x,
                        ) == (if among(v@, i + 1, x) {
                            EOC_MARKER as int
                        } else {
                            old(self).entry(x)
                        }) by {
                            assert(before.entry(x) == (if among(v@, i as int, x) {
                                EOC_MARKER as int
                            } else {
                                old(self).entry(x)
                            }));
                            if x == c {
                                assert(v@[i as int] == x);
                                assert(among(v@, i + 1, x));
                            } else if among(v@, i + 1, x) {
                                let k = choose|k: int| 0 <= k < i + 1 && #[trigger] v@[k] == x;
                                assert(k < i);
                                assert(among(v@, i as int, x));
                            } else if among(v@, i as int, x) {
                                let k = choose|k: int| 0 <= k < i && #[trigger] v@[k] == x;
                                assert(among(v@, i + 1, x));
                            }
                        }
                    } else {
                        assert forall|x: int|
                            old(self).has_entry(x) && !among(
                                v@,
                                v@.len() as int,
                                x,
                            ) implies #[trigger] self.entry(x) == old(self).entry(x) by {
                            assert(self.entry(x) == before.entry(x));
                            if among(v@, i as int, x) {
                                let k = choose|k: int| 0 <= k < i && #[trigger] v@[k] == x;
                                assert(among(v@, v@.len() as int, x));
                            }
                        }
                    }
                    self.lemma_same_data_trans(before, *old(self));
                }
            }
            match w {
                Ok(_) => {},
                Err(e) => return Err((e, i)),
            }
            i = i + 1;
        }
        Ok(())
    }

    /// Each entry is as in `o`, or is that of one of the first `n` clusters of `v` and marks
    /// it as free.
    pub open spec fn entries_freed_or_kept(self, o: Self, v: Seq<u32>, n: int) -> bool {
        forall|x: int|
            o.has_entry(x) ==> #[trigger] self.entry(x) == o.entry(x) || (among(v, n, x)
                && self.entry(x) == FREE_CLUSTER)
    }

    /// What one more cluster of `v` that is marked as free, or is not, adds.
    proof fn lemma_unmarked_one(self, m: Self, o: Self, v: Seq<u32>, i: int, ok: bool)
        requires
            0 <= i < v.len(),
            m.bpb == o.bpb,
            ok ==> self.entry_set(m, v[i] as int, FREE_CLUSTER as int),
            !ok ==> self.same_table(m),
        ensures
            m.entries_freed_or_kept(o, v, i) ==> self.entries_freed_or_kept(o, v, i + 1),
            ok && m.entries_set(o, v, i, FREE_CLUSTER as int) ==> self.entries_set(
                o,
                v,
                i + 1,
                FREE_CLUSTER as int,
            ),
    {
        assert forall|x: int| among(v, i + 1, x) <==> #[trigger] among(v, i, x) || x == v[i] by {
            if among(v, i + 1, x) {
                let k = choose|k: int| 0 <= k < i + 1 && #[trigger] v[k] == x;
                assert(k < i ==> among(v, i, x));
            }
            if among(v, i, x) {
                let k = choose|k: int| 0 <= k < i && #[trigger] v[k] == x;
                assert(among(v, i + 1, x));
            }
            if x == v[i] {
                assert(among(v, i + 1, x));
            }
        }
        if m.entries_freed_or_kept(o, v, i) {
            assert forall|x: int| o.has_entry(x) implies #[trigger] self.entry(x) == o.entry(x) || (
            among(v, i + 1, x) && self.entry(x) == FREE_CLUSTER) by {
                assert(m.has_entry(x));
                assert(m.entry(x) == o.entry(x) || (among(v, i, x) && m.entry(x) == FREE_CLUSTER));
                assert(among(v, i + 1, x) <==> among(v, i, x) || x == v[i]);
            }
        }
        if ok && m.entries_set(o, v, i, FREE_CLUSTER as int) {
            assert forall|x: int| o.has_entry(x) implies #[trigger] self.entry(x) == (if among(
                v,
                i + 1,
                x,
            ) {
                FREE_CLUSTER as int
            } else {
                o.entry(x)
            }) by {
                assert(m.has_entry(x));
                assert(m.entry(x) == (if among(v, i, x) {
                    FREE_CLUSTER as int
                } else {
                    o.entry(x)
                }));
                assert(among(v, i + 1, x) <==> among(v, i, x) || x == v[i]);
            }
        }
    }

    /// Marks the first `n` clusters of `v` as free again, as far as that succeeds: each of
    /// them, where no read or write of the device fails.
    fn unmark(&mut self, v: &Vec<u32>, n: usize)
        requires
            old(self).inv(),
            n <= v@.len(),
            forall|k: int| 0 <= k < v@.len() ==> old(self).is_cluster(#[trigger] v@[k] as int),
        ensures
            final(self).inv(),
            final(self).same_rest(*old(self)),
            old(self).sound() ==> final(self).sound() && final(self).same_data(*old(self))
                && final(self).entries_kept(*old(self), v@) && final(self).entries_freed_or_kept(
                *old(self),
                v@,
                n as int,
            ),
            old(self).sound() && final(self).faults() == old(self).faults()
                ==> final(self).entries_set(*old(self), v@, n as int, FREE_CLUSTER as int),
    {
        let mut i: usize = 0;
        while i < n
            invariant
                i <= n <= v@.len(),
                self.inv(),
                self.same_rest(*old(self)),
                forall|k: int| 0 <= k < v@.len() ==> old(self).is_cluster(#[trigger] v@[k] as int),
                old(self).sound() ==> self.sound() && self.same_data(*old(self))
                    && self.entries_kept(*old(self), v@) && self.entries_freed_or_kept(
                    *old(self),
                    v@,
                    i as int,
                ),
                old(self).sound() && self.faults() == old(self).faults() ==> self.entries_set(
                    *old(self),
                    v@,
                    i as int,
                    FREE_CLUSTER as int,
                ),
            decreases n - i,
        {
            let ghost before = *self;
            assert(old(self).is_cluster(v@[i as int] as int));
            let c: u32 = v[i];
            let _written = self.write_fat_entry(c, FREE_CLUSTER);
            proof {
                if old(self).sound() {
                    assert(before.has_entry(c as int));
                    self.lemma_same_data_trans(before, *old(self));
                    assert forall|x: int|
                        old(self).has_entry(x) && !among(
                            v@,
                            v@.len() as int,
                            x,
                        ) implies #[trigger] self.entry(x) == old(self).entry(x) by {
                        assert(before.has_entry(x));
                        assert(before.entry(x) == old(self).entry(x));
                        assert(v@[i as int] == c);
                    }
                    self.lemma_unmarked_one(before, *old(self), v@, i as int, _written is Ok);
                }
            }
            i = i + 1;
        }
    }

    /// The cluster index, counted from 0, at which a search starts.
    pub open spec fn search_start(self) -> int {
        (self.next_alloc_hint - 2) % (self.bpb.total_clus as int)
    }

    /// Which clusters, counted from 0, are taken: by the bitmap, or by the table where
    /// there is none.
    pub open spec fn taken(self) -> spec_fn(int) -> bool {
        match self.alloc_bitmap {
            Some(b) => b.used(),
            None => |i: int| self.entry(i + 2) != 0,
        }
    }

    /// The clusters that are free, in the order in which a search finds them.
    pub open spec fn free_list(self) -> Seq<int> {
        free_prefix(
            self.taken(),
            self.bpb.total_clus as int,
            self.search_start(),
            self.bpb.total_clus as int,
        )
    }

    /// Fewer than `count` clusters are free, as far as that is known.
    pub open spec fn short_of(self, count: int) -> bool {
        self.bpb.total_clus == 0 || (self.alloc_bitmap is Some || self.sound()
            ==> self.free_list().len() < count)
    }

    /// Where the table is the same, so are the free clusters.
    pub proof fn lemma_short_same(self, o: Self, count: int)
        requires
            o.sound(),
            self.short_of(count),
            self.sound(),
            self.bpb == o.bpb,
            self.alloc_bitmap == o.alloc_bitmap,
            self.next_alloc_hint == o.next_alloc_hint,
            self.same_table(o),
        ensures
            o.short_of(count),
    {
        let total = o.bpb.total_clus as int;
        if total > 0 {
            lemma_free_prefix_same(self.taken(), o.taken(), total, o.search_start(), total);
        }
    }

    /// `v` are the `count` clusters that an allocation is to take.
    pub open spec fn is_choice(self, count: int, v: Seq<u32>) -> bool {
        let picked = v.map_values(|c: u32| c - 2);
        if self.alloc_bitmap is Some {
            is_pick(
                self.taken(),
                self.bpb.total_clus as int,
                self.search_start(),
                count,
                picked,
            )
        } else {
            self.free_list().len() >= count && picked == self.free_list().take(count)
        }
    }

    /// The bitmap has the bits of `v` set besides those of `o`.
    pub open spec fn bits_taken(self, o: Self, v: Seq<u32>) -> bool {
        match (self.alloc_bitmap, o.alloc_bitmap) {
            (Some(b), Some(ob)) => b.capacity() == ob.capacity() && forall|j: int|
                0 <= j < ob.capacity() ==> #[trigger] b.bit(j) == (ob.bit(j) || among(
                    v,
                    v.len() as int,
                    j + 2,
                )),
            (None, None) => true,
            (_, _) => false,
        }
    }

    /// The bitmap has the bits of `o`.
    pub open spec fn bits_kept(self, o: Self) -> bool {
        match (self.alloc_bitmap, o.alloc_bitmap) {
            (Some(b), Some(ob)) => b.same_bits(ob),
            (None, None) => true,
            (_, _) => false,
        }
    }

    /// From `o`, the next search for free clusters has moved behind the last of `t`, where it
    /// has moved at all.
    pub open spec fn searches_behind(self, o: Self, t: Seq<u32>, moved: bool) -> bool {
        self.next_alloc_hint as int == if moved {
            t.last() + 1
        } else {
            o.next_alloc_hint as int
        }
    }

    /// From `o`, the clusters `v` were allocated.
    pub open spec fn allocated(self, o: Self, v: Seq<u32>) -> bool {
        &&& self.inv()
        &&& self.same_but_alloc(o)
        &&& v.len() > 0
        &&& self.next_alloc_hint == v.last() + 1
        &&& self.free_clus_count == o.free_clus_count.wrapping_sub(v.len() as u32)
        &&& self.bits_taken(o, v)
        &&& forall|k: int| 0 <= k < v.len() ==> o.is_cluster(#[trigger] v[k] as int)
        &&& o.alloc_bitmap is Some || o.sound() ==> v.no_duplicates()
        &&& o.sound() ==> self.sound() && self.same_data(o) && self.entries_set(
            o,
            v,
            v.len() as int,
            EOC_MARKER as int,
        )
    }

    /// The entries of all clusters that were taken in `o` are as in `o`.
    pub open spec fn taken_kept(self, o: Self) -> bool {
        forall|x: int|
            o.has_entry(x) && !(o.is_cluster(x) && !(o.taken())(x - 2)) ==> #[trigger] self.entry(x)
                == o.entry(x)
    }

    /// From `o`, an allocation failed: nothing is taken.
    pub open spec fn not_allocated(self, o: Self) -> bool {
        &&& self.inv()
        &&& self.same_but_alloc(o)
        &&& self.next_alloc_hint == o.next_alloc_hint
        &&& self.free_clus_count == o.free_clus_count
        &&& self.bits_kept(o)
        &&& o.sound() ==> self.sound() && self.same_data(o) && self.taken_kept(o)
    }

    /// Allocation by the bitmap.
    fn alloc_by_bitmap(&mut self, count: u32) -> (r: Result<Vec<u32>, VfsError>)
        requires
            old(self).inv(),
            old(self).alloc_bitmap is Some,
            old(self).bpb.total_clus > 0,
            count > 0,
        ensures
            match r {
                Ok(v) => v@.len() == count && final(self).allocated(*old(self), v@)
                    && old(self).is_choice(count as int, v@),
                Err(VfsError::NoSpace) => *final(self) == *old(self),
                Err(e) => e == VfsError::IOError && final(self).not_allocated(*old(self))
                    && final(self).faults() > old(self).faults(),
            },
            r == Err::<Vec<u32>, VfsError>(VfsError::NoSpace) <==> old(self).free_list().len()
                < count,
    {
        let total: u32 = self.bpb.total_clus;
        let start: u32 = (self.next_alloc_hint - 2) % total;
        let ghost o = *self;
        let ghost ob = self.alloc_bitmap->0;
        let picked: Vec<u32> = match &self.alloc_bitmap {
            Some(b) => {
                match b.pick(total, start, count) {
                    Some(v) => v,
                    None => return Err(VfsError::NoSpace),
                }
            },
            None => return Err(VfsError::NoSpace),
        };
        let ghost idx = picked@.map_values(|x: u32| x as int);
        proof {
            lemma_pick(ob.used(), total as int, start as int, count as int, idx);
            assert forall|k: int| 0 <= k < picked@.len() implies #[trigger] picked@[k] < total
                && !ob.bit(picked@[k] as int) by {
                assert(idx[k] == picked@[k]);
                assert(!(ob.used())(idx[k]));
            }
        }
        match &mut self.alloc_bitmap {
            Some(b) => {
                b.set_all(&picked);
            },
            None => {},
        }
        let out: Vec<u32> = clusters_of(&picked, total);
        let ghost m = *self;
        proof {
            assert(m.inv());
            assert(out@.map_values(|c: u32| c - 2) =~= idx);
            assert forall|a: int, b: int|
                0 <= a < out@.len() && 0 <= b < out@.len() && a != b implies out@[a]
                != out@[b] by {
                assert(idx[a] != idx[b]);
            }
            assert forall|j: int| 0 <= j implies among(picked@, picked@.len() as int, j)
                == #[trigger] among(out@, out@.len() as int, j + 2) by {
                if among(picked@, picked@.len() as int, j) {
                    let k = choose|k: int|
                        0 <= k < picked@.len() as int && #[trigger] picked@[k] == j;
                    assert(out@[k] == j + 2);
                }
                if among(out@, out@.len() as int, j + 2) {
                    let k = choose|k: int| 0 <= k < out@.len() as int && #[trigger] out@[k] == j
                        + 2;
                    assert(picked@[k] == j);
                }
            }
            assert(o.sound() ==> m.sound());
            m.lemma_same_source(o);
        }
        match self.mark_ends(&out) {
            Ok(_) => {},
            Err((e, n)) => {
                let ghost f = *self;
                match &mut self.alloc_bitmap {
                    Some(b) => {
                        b.clear_all(&picked);
                        proof {
                            assert forall|j: int| 0 <= j < ob.capacity() implies #[trigger] b.bit(j)
                                == ob.bit(j) by {
                                if among(picked@, picked@.len() as int, j) {
                                    let k = choose|k: int|
                                        0 <= k < picked@.len() && #[trigger] picked@[k] == j;
                                    assert(!ob.bit(picked@[k] as int));
                                }
                            }
                        }
                    },
                    None => {},
                }
                let ghost g = *self;
                assert(f.sound() ==> g.sound());
                self.unmark(&out, n);
                proof {
                    if o.sound() {
                        assert(f.same_data(o)) by {
                            f.lemma_same_data_trans(m, o);
                        }
                        assert(g.same_data(f));
                        g.lemma_same_source(f);
                        self.lemma_same_data_trans(g, f);
                        self.lemma_same_data_trans(f, o);
                        assert forall|x: int|
                            o.has_entry(x) && !(o.is_cluster(x) && !(o.taken())(
                                x - 2,
                            )) implies #[trigger] self.entry(x) == o.entry(x) by {
                            if among(out@, out@.len() as int, x) {
                                let k = choose|k: int|
                                    0 <= k < out@.len() && #[trigger] out@[k] == x;
                                assert(!ob.bit(picked@[k] as int));
                            }
                            assert(g.has_entry(x) && f.has_entry(x) && m.has_entry(x));
                            assert(self.entry(x) == g.entry(x));
                            assert(g.entry(x) == f.entry(x));
                            assert(f.entry(x) == m.entry(x));
                        }
                    }
                }
                return Err(e);
            },
        }
        let last: u32 = out[out.len() - 1];
        assert(o.is_cluster(last as int));
        let ghost f = *self;
        self.next_alloc_hint = last + 1;
        self.free_clus_count = self.free_clus_count.wrapping_sub(count);
        proof {
            let b = *self;
            if o.sound() {
                assert(b.sound());
                assert(b.same_data(f));
                b.lemma_same_source(f);
                f.lemma_same_data_trans(m, o);
                b.lemma_same_data_trans(f, o);
                assert forall|x: int| o.has_entry(x) implies #[trigger] b.entry(x) == (if among(
                    out@,
                    out@.len() as int,
                    x,
                ) {
                    EOC_MARKER as int
                } else {
                    o.entry(x)
                }) by {
                    assert(b.entry(x) == f.entry(x));
                    assert(m.has_entry(x));
                }
            }
        }
        Ok(out)
    }

    /// Allocation by searching the table itself.
    fn alloc_by_table(&mut self, count: u32) -> (r: Result<Vec<u32>, VfsError>)
        requires
            old(self).inv(),
            old(self).alloc_bitmap is None,
            old(self).bpb.total_clus > 0,
            count > 0,
        ensures
            match r {
                Ok(v) => v@.len() == count && final(self).allocated(*old(self), v@)
                    && (old(self).sound() ==> old(self).is_choice(count as int, v@)),
                Err(VfsError::NoSpace) => final(self).not_allocated(*old(self))
                    && (old(self).sound() ==> old(self).free_list().len() < count && (
                final(self).faults() == old(self).faults() ==> final(self).same_table(
                    *old(self),
                ))),
                Err(e) => e == VfsError::IOError && final(self).not_allocated(*old(self))
                    && final(self).faults() > old(self).faults(),
            },
    {
        let n: u32 = self.bpb.total_clus;
        let start: u32 = (self.next_alloc_hint - 2) % n;
        let ghost o = *self;
        let mut out: Vec<u32> = Vec::new();
        let mut i: u32 = 0;
        while i < n && out.len() < count as usize
            invariant
                o == *old(self),
                o.alloc_bitmap is None,
                i <= n,
                n == o.bpb.total_clus,
                n > 0,
                start == o.search_start(),
                self.inv(),
                self.same_rest(o),
                out@.len() <= count,
                forall|k: int| 0 <= k < out@.len() ==> o.is_cluster(#[trigger] out@[k] as int),
                o.sound() ==> self.sound() && self.same_data(o) && self.entries_set(
                    o,
                    out@,
                    out@.len() as int,
                    EOC_MARKER as int,
                ),
                o.sound() ==> out@.map_values(|c: u32| c - 2) == free_prefix(
                    o.taken(),
                    n as int,
                    start as int,
                    i as int,
                ),
            decreases n - i,
        {
            let at: u32 = ((start as u64 + i as u64) % (n as u64)) as u32;
            let clus: u32 = 2 + at;
            let ghost before = *self;
            let read = self.read_fat_entry(clus);
            let ghost m = *self;
            proof {
                assert(at == round(n as int, start as int, i as int));
                if o.sound() {
                    m.lemma_same_data_trans(before, o);
                    assert forall|x: int| o.has_entry(x) implies #[trigger] m.entry(x) == (
                    if among(out@, out@.len() as int, x) {
                        EOC_MARKER as int
                    } else {
                        o.entry(x)
                    }) by {
                        assert(before.has_entry(x));
                        assert(m.entry(x) == before.entry(x));
                    }
                    assert(o.has_entry(clus as int));
                    lemma_free_prefix(o.taken(), n as int, start as int, i as int);
                    if among(out@, out@.len() as int, clus as int) {
                        let k = choose|k: int|
                            0 <= k < out@.len() && #[trigger] out@[k] == clus as int;
                        let fp = free_prefix(o.taken(), n as int, start as int, i as int);
                        assert(fp[k] == out@.map_values(|c: u32| c - 2)[k]);
                        let w = choose|w: int|
                            0 <= w < i && fp[k] == #[trigger] round(n as int, start as int, w);
                        lemma_round_distinct(n as int, start as int, w, i as int);
                    }
                }
            }
            let val: u32 = match read {
                Ok(v) => v,
                Err(e) => {
                    let k: usize = out.len();
                    self.unmark(&out, k);
                    proof {
                        if o.sound() {
                            self.lemma_same_data_trans(m, o);
                            lemma_taken_kept(o, m, *self, out@, i as int);
                        }
                    }
                    return Err(e);
                },
            };
            assert(o.sound() ==> val == o.entry(clus as int));
            assert((o.taken())(at as int) == (o.entry(at as int + 2) != 0));
            let ghost prev = out@;
            if val == FREE_CLUSTER {
                match self.write_fat_entry(clus, EOC_MARKER) {
                    Ok(_) => {},
                    Err(e) => {
                        let ghost w = *self;
                        let k: usize = out.len();
                        self.unmark(&out, k);
                        proof {
                            if o.sound() {
                                w.lemma_same_data_trans(m, o);
                                self.lemma_same_data_trans(w, o);
                                assert forall|x: int| o.has_entry(x) implies #[trigger] w.entry(x)
                                    == (if among(out@, out@.len() as int, x) {
                                    EOC_MARKER as int
                                } else {
                                    o.entry(x)
                                }) by {
                                    assert(m.has_entry(x));
                                    assert(w.entry(x) == m.entry(x));
                                }
                                lemma_taken_kept(o, w, *self, out@, i as int);
                            }
                        }
                        return Err(e);
                    },
                }
                out.push(clus);
                proof {
                    if o.sound() {
                        self.lemma_same_data_trans(m, o);
                        assert forall|x: int| o.has_entry(x) implies #[trigger] self.entry(x) == (
                        if among(out@, out@.len() as int, x) {
                            EOC_MARKER as int
                        } else {
                            o.entry(x)
                        }) by {
                            assert(m.has_entry(x));
                            assert(m.entry(x) == (if among(prev, prev.len() as int, x) {
                                EOC_MARKER as int
                            } else {
                                o.entry(x)
                            }));
                            if x == clus {
                                assert(out@[out@.len() - 1] == x);
                            } else if among(prev, prev.len() as int, x) {
                                let k = choose|k: int|
                                    0 <= k < prev.len() && #[trigger] prev[k] == x;
                                assert(out@[k] == x);
                            } else if among(out@, out@.len() as int, x) {
                                let k = choose|k: int|
                                    0 <= k < out@.len() && #[trigger] out@[k] == x;
                                assert(prev[k] == x);
                            }
                        }
                    }
                    assert(out@.map_values(|c: u32| c - 2) =~= prev.map_values(|c: u32| c - 2).push(
                        at as int,
                    ));
                }
            }
            i = i + 1;
        }
        let ghost m = *self;
        proof {
            if o.sound() {
                lemma_free_prefix_grows(o.taken(), n as int, start as int, i as int, n as int);
                let part = free_prefix(o.taken(), n as int, start as int, i as int);
                assert(part.len() == out@.len());
                if out@.len() == count {
                    assert(o.free_list().take(count as int) =~= part);
                    lemma_free_prefix(o.taken(), n as int, start as int, i as int);
                    assert forall|a: int, b: int|
                        0 <= a < out@.len() && 0 <= b < out@.len() && a != b implies out@[a]
                        != out@[b] by {
                        assert(part[a] == out@[a] - 2 && part[b] == out@[b] - 2);
                    }
                }
            }
        }
        if out.len() < count as usize {
            let k: usize = out.len();
            self.unmark(&out, k);
            proof {
                if o.sound() {
                    self.lemma_same_data_trans(m, o);
                    lemma_taken_kept(o, m, *self, out@, i as int);
                    if self.faults() == o.faults() {
                        lemma_all_given_back(o, m, *self, out@, i as int);
                    }
                }
            }
            return Err(VfsError::NoSpace);
        }
        let last: u32 = out[out.len() - 1];
        assert(o.is_cluster(last as int));
        self.next_alloc_hint = last + 1;
        self.free_clus_count = self.free_clus_count.wrapping_sub(count);
        proof {
            let b = *self;
            if o.sound() {
                assert(b.sound());
                assert(b.same_data(m));
                b.lemma_same_source(m);
                b.lemma_same_data_trans(m, o);
                assert forall|x: int| o.has_entry(x) implies #[trigger] b.entry(x) == (if among(
                    out@,
                    out@.len() as int,
                    x,
                ) {
                    EOC_MARKER as int
                } else {
                    o.entry(x)
                }) by {
                    assert(b.entry(x) == m.entry(x));
                }
            }
        }
        Ok(out)
    }

    /// Allocates `count` clusters and returns them in allocation order. A run of
    /// neighbouring free clusters is taken where there is one, for sequential access;
    /// else any free clusters are. Each is marked as the end of a chain: linking
    /// them, and flushing the table, is left to the caller.
    pub fn alloc_clusters(&mut self, count: u32) -> (r: Result<Vec<u32>, VfsError>)
        requires
            old(self).inv(),
        ensures
            final(self).inv(),
            count == 0 ==> r is Ok && *final(self) == *old(self),
            count > 0 && old(self).bpb.total_clus == 0 ==> r == Err::<Vec<u32>, VfsError>(
                VfsError::NoSpace,
            ) && *final(self) == *old(self),
            count > 0 && old(self).bpb.total_clus > 0 && old(self).alloc_bitmap is Some ==> (r
                == Err::<Vec<u32>, VfsError>(VfsError::NoSpace) <==> old(self).free_list().len()
                < count) && (r == Err::<Vec<u32>, VfsError>(VfsError::NoSpace) ==> *final(self)
                == *old(self)),
            match r {
                Ok(v) => v@.len() == count && (count > 0 ==> old(self).bpb.total_clus > 0
                    && final(self).allocated(*old(self), v@) && (old(self).alloc_bitmap is Some
                    || old(self).sound() ==> old(self).is_choice(count as int, v@)
                    && old(self).free_list().len() >= count)),
                Err(VfsError::NoSpace) => final(self).not_allocated(*old(self))
                    && old(self).short_of(count as int) && (final(self).faults()
                    == old(self).faults() ==> final(self).quiet(*old(self))),
                Err(e) => e == VfsError::IOError && final(self).not_allocated(*old(self))
                    && final(self).faults() > old(self).faults(),
            },
            r matches Ok(v) ==> old(self).alloc_bitmap is Some && (exists|s: int|
                0 <= s && #[trigger] is_free_run(
                    old(self).taken(),
                    old(self).bpb.total_clus as int,
                    s,
                    count as int,
                )) ==> forall|k: int| 0 <= k < v@.len() ==> #[trigger] v@[k] == v@[0] + k,
    {
        if count == 0 {
            return Ok(Vec::new());
        }
        if self.bpb.total_clus == 0 {
            return Err(VfsError::NoSpace);
        }
        let r = match &self.alloc_bitmap {
            Some(_) => self.alloc_by_bitmap(count),
            None => self.alloc_by_table(count),
        };
        proof {
            let o = *old(self);
            let total = o.bpb.total_clus as int;
            if r is Ok {
                let v = r->Ok_0;
                if o.alloc_bitmap is Some && exists|s: int|
                    0 <= s && #[trigger] is_free_run(o.taken(), total, s, count as int) {
                    let s = choose|s: int|
                        0 <= s && #[trigger] is_free_run(o.taken(), total, s, count as int);
                    let picked = v@.map_values(|c: u32| c - 2);
                    lemma_run_is_window(o.taken(), total, o.search_start(), s, count as int);
                    lemma_pick(o.taken(), total, o.search_start(), count as int, picked);
                    assert forall|k: int| 0 <= k < v@.len() implies #[trigger] v@[k] == v@[0]
                        + k by {
                        assert(picked[k] == picked[0] + k);
                    }
                }
            }
        }
        r
    }

    /// Allocates one cluster.
    pub fn alloc_cluster(&mut self) -> (r: Result<u32, VfsError>)
        requires
            old(self).inv(),
        ensures
            final(self).inv(),
            match r {
                Ok(c) => final(self).allocated(*old(self), seq![c])
                    && (old(self).alloc_bitmap is Some || old(self).sound()
                    ==> old(self).is_choice(1, seq![c])),
                Err(VfsError::NoSpace) => final(self).not_allocated(*old(self))
                    && old(self).short_of(1) && (final(self).faults() == old(self).faults()
                    ==> final(self).quiet(*old(self))),
                Err(e) => e == VfsError::IOError && final(self).not_allocated(*old(self))
                    && final(self).faults() > old(self).faults(),
            },
            old(self).bpb.total_clus == 0 || (old(self).alloc_bitmap is Some
                && old(self).free_list().len() == 0) ==> r == Err::<u32, VfsError>(
                VfsError::NoSpace,
            ) && *final(self) == *old(self),
    {
        match self.alloc_clusters(1) {
            Ok(v) => {
                assert(v@ =~= seq![v@[0]]);
                Ok(v[0])
            },
            Err(e) => Err(e),
        }
    }
}

/// Giving back all clusters that a search of the table had found restores the table.
proof fn lemma_all_given_back<D: BlockDevice>(
    o: Fat32SuperBlock<D>,
    m: Fat32SuperBlock<D>,
    next: Fat32SuperBlock<D>,
    out: Seq<u32>,
    off: int,
)
    requires
        o.bpb.total_clus > 0,
        o.alloc_bitmap is None,
        0 <= off <= o.bpb.total_clus,
        m.bpb == o.bpb,
        m.entries_set(o, out, out.len() as int, EOC_MARKER as int),
        next.entries_set(m, out, out.len() as int, FREE_CLUSTER as int),
        out.map_values(|c: u32| c - 2) == free_prefix(
            o.taken(),
            o.bpb.total_clus as int,
            o.search_start(),
            off,
        ),
    ensures
        next.same_table(o),
{
    let total = o.bpb.total_clus as int;
    lemma_free_prefix(o.taken(), total, o.search_start(), off);
    let fp = free_prefix(o.taken(), total, o.search_start(), off);
    assert forall|x: int| o.has_entry(x) implies #[trigger] next.entry(x) == o.entry(x) by {
        assert(m.has_entry(x));
        if among(out, out.len() as int, x) {
            let k = choose|k: int| 0 <= k < out.len() && #[trigger] out[k] == x;
            assert(fp[k] == out.map_values(|c: u32| c - 2)[k]);
            assert(!(o.taken())(fp[k]));
        }
        assert(m.entry(x) == (if among(out, out.len() as int, x) {
            EOC_MARKER as int
        } else {
            o.entry(x)
        }));
    }
}

/// Giving clusters back that a search of the table had found leaves the taken ones alone.
proof fn lemma_taken_kept<D: BlockDevice>(
    o: Fat32SuperBlock<D>,
    m: Fat32SuperBlock<D>,
    next: Fat32SuperBlock<D>,
    out: Seq<u32>,
    off: int,
)
    requires
        o.bpb.total_clus > 0,
        0 <= off <= o.bpb.total_clus,
        m.bpb == o.bpb,
        m.entries_set(o, out, out.len() as int, EOC_MARKER as int),
        next.entries_kept(m, out),
        out.map_values(|c: u32| c - 2) == free_prefix(
            o.taken(),
            o.bpb.total_clus as int,
            o.search_start(),
            off,
        ),
    ensures
        next.taken_kept(o),
{
    let total = o.bpb.total_clus as int;
    lemma_free_prefix(o.taken(), total, o.search_start(), off);
    let fp = free_prefix(o.taken(), total, o.search_start(), off);
    assert forall|x: int|
        o.has_entry(x) && !(o.is_cluster(x) && !(o.taken())(x - 2)) implies #[trigger] next.entry(x)
        == o.entry(x) by {
        if among(out, out.len() as int, x) {
            let k = choose|k: int| 0 <= k < out.len() && #[trigger] out[k] == x;
            assert(fp[k] == out.map_values(|c: u32| c - 2)[k]);
            assert(fp[k] == x - 2);
        }
        assert(m.has_entry(x));
        assert(m.entry(x) == o.entry(x));
    }
}

} // verus!
