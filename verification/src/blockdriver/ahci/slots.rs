//! Command slots: which are free, and bit masks over them.

use vstd::prelude::*;

verus! {

pub const AHCI_MAX_SLOTS: usize = 32;

/// The bit of slot `tag` is set in `mask`.
pub open spec fn marks(mask: u32, tag: u8) -> bool {
    mask & (1u32 << tag) != 0
}

/// The slots below `n` that `current` leaves free, in order.
pub open spec fn free_tags(current: u32, n: nat) -> Seq<u8>
    decreases n,
{
    if n == 0 {
        Seq::empty()
    } else {
        let before = free_tags(current, (n - 1) as nat);
        if marks(current, (n - 1) as u8) {
            before
        } else {
            before.push((n - 1) as u8)
        }
    }
}

/// The mask with the bits of `tags`.
pub open spec fn mask_of(tags: Seq<u8>) -> u32
    decreases tags.len(),
{
    if tags.len() == 0 {
        0
    } else {
        mask_of(tags.drop_last()) | (1u32 << tags.last())
    }
}

/// Slots are below the limit, and none comes twice.
proof fn lemma_free_tags(current: u32, n: nat)
    requires
        n <= AHCI_MAX_SLOTS,
    ensures
        free_tags(current, n).len() <= n,
        forall|i: int|
            0 <= i < free_tags(current, n).len() ==> {
                &&& #[trigger] free_tags(current, n)[i] < n
                &&& !marks(current, free_tags(current, n)[i])
            },
        forall|i: int, j: int|
            0 <= i < j < free_tags(current, n).len() ==> free_tags(current, n)[i] < free_tags(
                current,
                n,
            )[j],
    decreases n,
{
    if n > 0 {
        lemma_free_tags(current, (n - 1) as nat);
    }
}

/// More slots only add to the end of the list.
proof fn lemma_free_prefix(current: u32, a: nat, b: nat)
    requires
        a <= b,
    ensures
        free_tags(current, a).len() <= free_tags(current, b).len(),
        free_tags(current, a) == free_tags(current, b).take(free_tags(current, a).len() as int),
    decreases b - a,
{
    if a < b {
        lemma_free_prefix(current, a, (b - 1) as nat);
        let before = free_tags(current, (b - 1) as nat);
        assert(free_tags(current, b).take(before.len() as int) =~= before);
        assert(free_tags(current, b).take(free_tags(current, a).len() as int) =~= before.take(
            free_tags(current, a).len() as int,
        ));
    } else {
        assert(free_tags(current, b).take(free_tags(current, a).len() as int) =~= free_tags(
            current,
            a,
        ));
    }
}

/// The first `count` free slots of `n`, or nothing where there are not as many.
pub fn alloc_slots(current: u32, n: u8, count: usize) -> (r: Option<Vec<u8>>)
    requires
        n <= AHCI_MAX_SLOTS,
    ensures
        r is Some <==> free_tags(current, n as nat).len() >= count,
        r is Some ==> r->0@ == free_tags(current, n as nat).take(count as int),
        r is Some ==> forall|i: int| 0 <= i < count ==> #[trigger] r->0@[i] < n,
{
    let mut tags: Vec<u8> = Vec::new();
    let mut tag: u8 = 0;
    while tag < n && tags.len() < count
        invariant
            tag <= n <= AHCI_MAX_SLOTS,
            tags@ == free_tags(current, tag as nat),
            tags@.len() <= count,
        decreases n - tag,
    {
        if current & (1u32 << tag) == 0 {
            tags.push(tag);
        }
        tag = tag + 1;
    }
    proof {
        lemma_free_prefix(current, tag as nat, n as nat);
        lemma_free_tags(current, tag as nat);
        lemma_free_tags(current, n as nat);
    }
    if tags.len() < count {
        return None;
    }
    assert(tags@ =~= free_tags(current, n as nat).take(count as int));
    Some(tags)
}

/// The mask with the bits of `tags`.
pub fn tag_mask(tags: &Vec<u8>) -> (r: u32)
    requires
        forall|i: int| 0 <= i < tags@.len() ==> #[trigger] tags@[i] < AHCI_MAX_SLOTS,
    ensures
        r == mask_of(tags@),
{
    let mut mask: u32 = 0;
    let mut i: usize = 0;
    assert(tags@.take(0) =~= Seq::<u8>::empty());
    while i < tags.len()
        invariant
            i <= tags@.len(),
            mask == mask_of(tags@.take(i as int)),
            forall|k: int| 0 <= k < tags@.len() ==> #[trigger] tags@[k] < AHCI_MAX_SLOTS,
        decreases tags@.len() - i,
    {
        assert(tags@.take(i + 1).drop_last() =~= tags@.take(i as int));
        mask = mask | (1u32 << tags[i]);
        i = i + 1;
    }
    assert(tags@.take(i as int) =~= tags@);
    mask
}

/// A slot in use is never handed out again, and giving the slots back leaves the
/// slots that were in use before.
pub proof fn law_slots_are_free(current: u32, n: nat, count: int)
    requires
        n <= AHCI_MAX_SLOTS,
        0 <= count <= free_tags(current, n).len(),
    ensures
        mask_of(free_tags(current, n).take(count)) & current == 0,
        (current | mask_of(free_tags(current, n).take(count))) & !mask_of(
            free_tags(current, n).take(count),
        ) == current,
    decreases count,
{
    let tags = free_tags(current, n).take(count);
    if count == 0 {
        assert(0u32 & current == 0) by (bit_vector);
    } else {
        law_slots_are_free(current, n, count - 1);
        lemma_free_tags(current, n);
        assert(tags.drop_last() =~= free_tags(current, n).take(count - 1));
        let before = mask_of(tags.drop_last());
        let tag = tags.last();
        assert(tag == free_tags(current, n)[count - 1]);
        let bit = 1u32 << tag;
        assert(current & bit == 0);
        assert((before | bit) & current == 0) by (bit_vector)
            requires
                before & current == 0,
                current & bit == 0,
        ;
    }
    let m = mask_of(tags);
    assert((current | m) & !m == current) by (bit_vector)
        requires
            m & current == 0,
    ;
}

} // verus!
