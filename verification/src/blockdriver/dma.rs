//! Memory for DMA: addresses that are handed out, and a cache of translations.

use crate::replay::{Link, Run, Step};
use vstd::prelude::*;

verus! {

pub const TRANS_CACHE_SIZE: usize = 64;

pub const PAGE_SIZE: u64 = 4096;

/// A walk of the page tables at `root` for the page at `page`. The reply is the
/// physical address plus one, or zero where the page is not mapped.
#[derive(Debug, Clone, Copy, PartialEq, Eq, Structural)]
pub struct Walk {
    pub root: u64,
    pub page: u64,
}

/// The page that an address lies in.
pub open spec fn page_of(vaddr: u64) -> u64 {
    (vaddr - vaddr % PAGE_SIZE) as u64
}

/// The translation that `entries` holds of a page: that of the first entry for
/// it.
pub open spec fn cached(entries: Seq<(u64, u64)>, page: u64) -> Option<u64>
    decreases entries.len(),
{
    if entries.len() == 0 {
        None
    } else if entries[0].0 == page {
        Some(entries[0].1)
    } else {
        cached(entries.skip(1), page)
    }
}

/// The translations that were found last.
pub struct TransCache {
    entries: Vec<(u64, u64)>,
    /// The entry that is replaced next.
    next: usize,
}

impl View for TransCache {
    type V = Seq<(u64, u64)>;

    closed spec fn view(&self) -> Seq<(u64, u64)> {
        self.entries@
    }
}

impl TransCache {
    pub closed spec fn inv(self) -> bool {
        self.entries@.len() == TRANS_CACHE_SIZE && self.next < TRANS_CACHE_SIZE
    }

    /// The place of the entry that is replaced next.
    pub closed spec fn hand(self) -> int {
        self.next as int
    }

    /// The entry that is replaced next is one of the cache.
    pub proof fn lemma_hand(self)
        requires
            self.inv(),
        ensures
            self@.len() == TRANS_CACHE_SIZE,
            0 <= self.hand() < self@.len(),
    {
    }

    /// A cache without a translation. Its entries are for the page at zero, which
    /// is taken to be where it is.
    pub fn new() -> (r: Self)
        ensures
            r.inv(),
            r.hand() == 0,
            r@ == Seq::new(TRANS_CACHE_SIZE as nat, |i: int| (0u64, 0u64)),
    {
        let mut entries: Vec<(u64, u64)> = Vec::new();
        while entries.len() < TRANS_CACHE_SIZE
            invariant
                entries@.len() <= TRANS_CACHE_SIZE,
                forall|i: int| 0 <= i < entries@.len() ==> #[trigger] entries@[i] == (0u64, 0u64),
            decreases TRANS_CACHE_SIZE - entries@.len(),
        {
            entries.push((0, 0));
        }
        let r = TransCache { entries, next: 0 };
        assert(r@ =~= Seq::new(TRANS_CACHE_SIZE as nat, |i: int| (0u64, 0u64)));
        r
    }

    fn lookup(&self, page: u64) -> (r: Option<u64>)
        ensures
            r == cached(self@, page),
    {
        let mut i: usize = 0;
        assert(self@.skip(0) =~= self@);
        while i < self.entries.len()
            invariant
                i <= self.entries@.len(),
                cached(self@.skip(i as int), page) == cached(self@, page),
            decreases self.entries@.len() - i,
        {
            assert(self@.skip(i as int).skip(1) =~= self@.skip(i + 1));
            if self.entries[i].0 == page {
                return Some(self.entries[i].1);
            }
            i = i + 1;
        }
        None
    }

    /// The physical address of the page that `vaddr` lies in. The tables are
    /// walked only where the cache does not hold the page; what the walk finds
    /// replaces the oldest entry.
    pub fn lookup_or_translate(&mut self, replies: Vec<u64>, vaddr: u64, root: u64) -> (r: Step<
        Walk,
        Option<u64>,
    >)
        requires
            old(self).inv(),
        ensures
            final(self).inv(),
            r == crate::replay::told(translated(old(self)@, replies@, vaddr, root)),
            has_learned(*old(self), *final(self), vaddr, r),
    {
        let page: u64 = vaddr - vaddr % PAGE_SIZE;
        if let Some(pa) = self.lookup(page) {
            return Step::Done(Some(pa));
        }
        let mut l: Link<Walk> = Link::start(replies);
        match l.ask(Walk { root, page }) {
            None => l.finish(None),
            Some(v) => {
                if v == 0 {
                    return Step::Done(None);
                }
                let pa: u64 = v - 1;
                self.entries.set(self.next, (page, pa));
                self.next = if self.next + 1 == TRANS_CACHE_SIZE {
                    0
                } else {
                    self.next + 1
                };
                Step::Done(Some(pa))
            },
        }
    }
}

/// What a translation leaves in the cache: a page that was walked for and found
/// replaces the entry whose turn it is; nothing else changes.
pub open spec fn has_learned(
    before: TransCache,
    after: TransCache,
    vaddr: u64,
    r: Step<Walk, Option<u64>>,
) -> bool {
    if cached(before@, page_of(vaddr)) is None && r is Done && r->Done_0 is Some {
        &&& after@ == before@.update(before.hand(), (page_of(vaddr), r->Done_0->0))
        &&& after.hand() == (before.hand() + 1) % TRANS_CACHE_SIZE as int
    } else {
        after == before
    }
}

/// Translating an address: by the cache, or by a walk.
pub open spec fn translated(
    entries: Seq<(u64, u64)>,
    r: Seq<u64>,
    vaddr: u64,
    root: u64,
) -> Run<Walk, Option<u64>> {
    match cached(entries, page_of(vaddr)) {
        Some(pa) => Run::Gives(Some(pa), 0),
        None => crate::replay::follow(
            crate::replay::asked(r, 0, Walk { root, page: page_of(vaddr) }),
            |v: u64, q: int|
                if v == 0 {
                    Run::Gives(None, q)
                } else {
                    Run::Gives(Some((v - 1) as u64), q)
                },
        ),
    }
}

/// A page that was just translated is found in the cache, without a walk.
pub proof fn law_translation_is_kept(entries: Seq<(u64, u64)>, hand: int, page: u64, pa: u64)
    requires
        0 <= hand < entries.len(),
        cached(entries, page) is None,
    ensures
        cached(entries.update(hand, (page, pa)), page) == Some(pa),
    decreases entries.len(),
{
    let after = entries.update(hand, (page, pa));
    if hand > 0 {
        law_translation_is_kept(entries.skip(1), hand - 1, page, pa);
        assert(after.skip(1) =~= entries.skip(1).update(hand - 1, (page, pa)));
        assert(after[0] == entries[0]);
    }
}

/// A page that a cache was asked for and walked for is found in it from then on.
pub proof fn law_walked_page_is_cached(
    before: TransCache,
    after: TransCache,
    vaddr: u64,
    r: Step<Walk, Option<u64>>,
)
    requires
        before.inv(),
        has_learned(before, after, vaddr, r),
        r is Done,
        r->Done_0 is Some,
        cached(before@, page_of(vaddr)) is None,
    ensures
        cached(after@, page_of(vaddr)) == r->Done_0,
{
    before.lemma_hand();
    law_translation_is_kept(before@, before.hand(), page_of(vaddr), r->Done_0->0);
}

/// Memory that a device can reach.
#[derive(Debug, Clone, Copy, PartialEq, Eq, Structural)]
pub struct DmaBuffer {
    pub phys: u64,
    pub virt: u64,
    pub size: usize,
}

/// Addresses for device registers and for buffers, handed out downwards.
#[derive(Debug, Clone, Copy, PartialEq, Eq, Structural)]
pub struct DmaAllocator {
    pub root: u64,
    /// Everything from here on has been handed out.
    pub next_vaddr: u64,
    /// Nothing below this is handed out.
    pub vaddr_floor: u64,
}

impl DmaAllocator {
    /// There is room for `size` bytes.
    pub open spec fn fits(self, size: int) -> bool {
        self.next_vaddr - size >= self.vaddr_floor
    }

    pub fn new(root: u64, mmio_start: u64, mmio_floor: u64) -> (r: Self)
        ensures
            r == (DmaAllocator { root, next_vaddr: mmio_start, vaddr_floor: mmio_floor }),
    {
        DmaAllocator { root, next_vaddr: mmio_start, vaddr_floor: mmio_floor }
    }

    pub fn root(&self) -> (r: u64)
        ensures
            r == self.root,
    {
        self.root
    }

    /// An address for `size` bytes of device registers, just below what was handed
    /// out last.
    pub fn map_mmio(&mut self, size: u64) -> (r: Result<u64, &'static str>)
        ensures
            r is Ok <==> old(self).fits(size as int),
            r is Ok ==> {
                &&& r->Ok_0 == old(self).next_vaddr - size
                &&& *final(self) == (DmaAllocator { next_vaddr: r->Ok_0, ..*old(self) })
            },
            r is Err ==> *final(self) == *old(self),
            r is Err ==> r->Err_0@ == (if size > old(self).next_vaddr {
                "DMA: address space exhausted (overflow)"@
            } else {
                "DMA: address space exhausted"@
            }),
    {
        if size > self.next_vaddr {
            return Err("DMA: address space exhausted (overflow)");
        }
        let va: u64 = self.next_vaddr - size;
        if va < self.vaddr_floor {
            return Err("DMA: address space exhausted");
        }
        self.next_vaddr = va;
        Ok(va)
    }

    /// The physical address of the page that `vaddr` lies in.
    pub fn virt_to_phys(&self, cache: &mut TransCache, replies: Vec<u64>, vaddr: u64) -> (r: Step<
        Walk,
        Option<u64>,
    >)
        requires
            old(cache).inv(),
        ensures
            final(cache).inv(),
            r == crate::replay::told(translated(old(cache)@, replies@, vaddr, self.root)),
            has_learned(*old(cache), *final(cache), vaddr, r),
    {
        cache.lookup_or_translate(replies, vaddr, self.root)
    }

    /// A buffer of one page, at the physical page that was allocated for it.
    pub fn alloc_page(&mut self, phys: Option<u64>) -> (r: Option<DmaBuffer>)
        ensures
            r is Some <==> phys is Some && old(self).fits(4096),
            r is Some ==> {
                &&& r->0 == (DmaBuffer {
                    phys: phys->0,
                    virt: (old(self).next_vaddr - 4096) as u64,
                    size: 4096,
                })
                &&& *final(self) == (DmaAllocator { next_vaddr: r->0.virt, ..*old(self) })
            },
            r is None ==> *final(self) == *old(self),
    {
        self.alloc_contiguous(1, phys)
    }

    /// A buffer of `count` pages, at the contiguous physical pages that were
    /// allocated for it.
    pub fn alloc_contiguous(&mut self, count: usize, phys: Option<u64>) -> (r: Option<DmaBuffer>)
        requires
            count * 4096 <= usize::MAX,
        ensures
            r is Some <==> phys is Some && old(self).fits(count * 4096),
            r is Some ==> {
                &&& r->0 == (DmaBuffer {
                    phys: phys->0,
                    virt: (old(self).next_vaddr - count * 4096) as u64,
                    size: (count * 4096) as usize,
                })
                &&& *final(self) == (DmaAllocator { next_vaddr: r->0.virt, ..*old(self) })
            },
            r is None ==> *final(self) == *old(self),
    {
        match phys {
            None => None,
            Some(phys) => {
                let size: usize = count * 4096;
                let bytes: u64 = size as u64;
                match self.map_mmio(bytes) {
                    Ok(virt) => Some(DmaBuffer { phys, virt, size }),
                    Err(_) => None,
                }
            },
        }
    }
}

/// The physical address of the page that `vaddr` lies in, by the page tables at
/// `root`.
pub fn translate(cache: &mut TransCache, replies: Vec<u64>, root: u64, vaddr: u64) -> (r: Step<
    Walk,
    Option<u64>,
>)
    requires
        old(cache).inv(),
    ensures
        final(cache).inv(),
        r == crate::replay::told(translated(old(cache)@, replies@, vaddr, root)),
        has_learned(*old(cache), *final(cache), vaddr, r),
{
    cache.lookup_or_translate(replies, vaddr, root)
}

} // verus!
