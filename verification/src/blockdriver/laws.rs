//! What holds of the layers over block devices.

use vstd::prelude::*;

use crate::blockdriver::ahci::controller::PciDevice;
use crate::blockdriver::block_cache;
use crate::blockdriver::dma;
use crate::blockdriver::driver;
use crate::blockdriver::driver::{Entry, Match};

verus! {

/// The page of an address begins at a multiple of 4096 and holds the address.
pub proof fn law_page_of_an_address(v: u64)
    ensures
        dma::page_of(v) as int % 4096 == 0,
        dma::page_of(v) <= v < dma::page_of(v) + 4096,
{
}

/// Addresses of one page are translated alike.
pub proof fn law_addresses_of_a_page(
    entries: Seq<(u64, u64)>,
    r: Seq<u64>,
    v: u64,
    w: u64,
    root: u64,
)
    requires
        v as int / 4096 == w as int / 4096,
    ensures
        dma::translated(entries, r, v, root) == dma::translated(entries, r, w, root),
{
    assert(dma::page_of(v) == dma::page_of(w));
}

/// A translation that the cache holds is the first of its page; a page that has none is not
/// held.
pub proof fn law_cached_translation(entries: Seq<(u64, u64)>, page: u64, k: int)
    requires
        forall|i: int| 0 <= i < k ==> (#[trigger] entries[i]).0 != page,
        0 <= k <= entries.len(),
        k < entries.len() ==> entries[k].0 == page,
    ensures
        k < entries.len() ==> dma::cached(entries, page) == Some(entries[k].1),
        k == entries.len() ==> dma::cached(entries, page) is None,
    decreases k,
{
    if k > 0 {
        let rest = entries.skip(1);
        assert(entries[0].0 != page);
        assert forall|i: int| 0 <= i < k - 1 implies (#[trigger] rest[i]).0 != page by {
            assert(rest[i] == entries[i + 1]);
        }
        law_cached_translation(rest, page, k - 1);
    }
}

/// A device is brought up by a driver exactly where the driver accepts it.
pub proof fn law_accepted_devices_are_matched(
    drivers: Seq<Entry>,
    devs: Seq<PciDevice>,
    m: int,
    d: usize,
    k: usize,
)
    requires
        0 <= m <= devs.len() <= usize::MAX,
        drivers.len() <= usize::MAX,
    ensures
        driver::all_matches(drivers, devs, m).contains(Match { device: d, driver: k }) <==> d < m
            && k < drivers.len() && drivers[k as int].driver.accepts(devs[d as int]),
    decreases m,
{
    let all = driver::all_matches(drivers, devs, m);
    let x = Match { device: d, driver: k };
    if m > 0 {
        law_accepted_devices_are_matched(drivers, devs, m - 1, d, k);
        lemma_matches_of(drivers, devs, m - 1, drivers.len() as int, d, k);
        let before = driver::all_matches(drivers, devs, m - 1);
        let new = driver::matches_of(drivers, devs, m - 1, drivers.len() as int);
        assert(all == before + new);
        if before.contains(x) {
            let i = choose|i: int| 0 <= i < before.len() && before[i] == x;
            assert(all[i] == x);
        }
        if new.contains(x) {
            let i = choose|i: int| 0 <= i < new.len() && new[i] == x;
            assert(all[before.len() + i] == x);
        }
        if all.contains(x) {
            let i = choose|i: int| 0 <= i < all.len() && all[i] == x;
            if i < before.len() {
                assert(before[i] == x);
            } else {
                assert(new[i - before.len()] == x);
            }
        }
    }
}

proof fn lemma_matches_of(
    drivers: Seq<Entry>,
    devs: Seq<PciDevice>,
    at: int,
    n: int,
    d: usize,
    k: usize,
)
    requires
        0 <= at < devs.len() <= usize::MAX,
        0 <= n <= drivers.len() <= usize::MAX,
    ensures
        driver::matches_of(drivers, devs, at, n).contains(Match { device: d, driver: k }) <==> d
            == at && k < n && drivers[k as int].driver.accepts(devs[at]),
    decreases n,
{
    let all = driver::matches_of(drivers, devs, at, n);
    let x = Match { device: d, driver: k };
    if n > 0 {
        lemma_matches_of(drivers, devs, at, n - 1, d, k);
        let before = driver::matches_of(drivers, devs, at, n - 1);
        if before.contains(x) {
            let i = choose|i: int| 0 <= i < before.len() && before[i] == x;
            assert(all[i] == x);
        }
        if drivers[n - 1].driver.accepts(devs[at]) {
            assert(all[before.len() as int] == Match {
                device: at as usize,
                driver: (n - 1) as usize,
            });
        }
        if all.contains(x) {
            let i = choose|i: int| 0 <= i < all.len() && all[i] == x;
            if i < before.len() {
                assert(before[i] == x);
            }
        }
    }
}

/// The matches come device by device, and for each device driver by driver.
pub proof fn law_matches_are_in_order(
    drivers: Seq<Entry>,
    devs: Seq<PciDevice>,
    m: int,
    i: int,
    j: int,
)
    requires
        0 <= m <= devs.len() <= usize::MAX,
        drivers.len() <= usize::MAX,
        0 <= i < j < driver::all_matches(drivers, devs, m).len(),
    ensures
        ({
            let (a, b) = (
                driver::all_matches(drivers, devs, m)[i],
                driver::all_matches(drivers, devs, m)[j],
            );
            a.device < b.device || (a.device == b.device && a.driver < b.driver)
        }),
    decreases m,
{
    let before = driver::all_matches(drivers, devs, m - 1);
    let new = driver::matches_of(drivers, devs, m - 1, drivers.len() as int);
    if j < before.len() {
        law_matches_are_in_order(drivers, devs, m - 1, i, j);
    } else if i >= before.len() {
        lemma_in_order(drivers, devs, m - 1, drivers.len() as int, i - before.len(), j
            - before.len());
    } else {
        let a = before[i];
        let b = new[j - before.len()];
        assert(before.contains(a));
        assert(new.contains(b));
        law_accepted_devices_are_matched(drivers, devs, m - 1, a.device, a.driver);
        lemma_matches_of(drivers, devs, m - 1, drivers.len() as int, b.device, b.driver);
    }
}

proof fn lemma_in_order(
    drivers: Seq<Entry>,
    devs: Seq<PciDevice>,
    at: int,
    n: int,
    i: int,
    j: int,
)
    requires
        0 <= at < devs.len() <= usize::MAX,
        0 <= n <= drivers.len() <= usize::MAX,
        0 <= i < j < driver::matches_of(drivers, devs, at, n).len(),
    ensures
        ({
            let (a, b) = (
                driver::matches_of(drivers, devs, at, n)[i],
                driver::matches_of(drivers, devs, at, n)[j],
            );
            a.device == b.device && a.driver < b.driver
        }),
    decreases n,
{
    let before = driver::matches_of(drivers, devs, at, n - 1);
    if j < before.len() {
        lemma_in_order(drivers, devs, at, n - 1, i, j);
    } else {
        let a = before[i];
        assert(before.contains(a));
        lemma_matches_of(drivers, devs, at, n - 1, a.device, a.driver);
    }
}

/// Sectors are dropped until as many are left as there shall be; those that are left were held
/// before, and none is held twice. The first that goes is the one under the hand.
pub proof fn law_sectors_are_dropped(clock: Seq<u64>, hand: nat, target: nat)
    requires
        clock.no_duplicates(),
    ensures
        ({
            let left = block_cache::evicted(clock, hand, target);
            &&& clock.len() <= target ==> left == clock
            &&& clock.len() > target ==> left.len() == target
            &&& left.no_duplicates()
            &&& left.to_set().subset_of(clock.to_set())
            &&& clock.len() > target && hand < clock.len() ==> !left.contains(clock[hand as int])
            &&& clock.len() > target && hand >= clock.len() ==> !left.contains(clock[0])
        }),
    decreases clock.len(),
{
    if clock.len() > target {
        let h = block_cache::hand_at(clock.len(), hand) as int;
        let next = clock.update(h, clock.last()).drop_last();
        let gone = clock[h];
        assert forall|i: int| 0 <= i < next.len() implies #[trigger] next[i] == (if i == h {
            clock.last()
        } else {
            clock[i]
        }) by {}
        assert(next.no_duplicates());
        assert forall|x: u64| next.contains(x) implies clock.contains(x) && x != gone by {
            let i = choose|i: int| 0 <= i < next.len() && next[i] == x;
            if i == h {
                assert(clock[clock.len() - 1] == x);
            } else {
                assert(clock[i] == x);
            }
        }
        law_sectors_are_dropped(next, h as nat, target);
        let left = block_cache::evicted(next, h as nat, target);
        assert forall|x: u64| left.to_set().contains(x) implies clock.to_set().contains(x) && x
            != gone by {
            assert(next.to_set().contains(x));
            assert(next.contains(x));
        }
        assert(!left.contains(gone)) by {
            if left.contains(gone) {
                assert(left.to_set().contains(gone));
            }
        }
    }
}

/// Room is made only where the cache is full, and then for a quarter of it.
pub proof fn law_room_is_made(clock: Seq<u64>, hand: nat)
    requires
        clock.no_duplicates(),
        clock.len() <= 4096,
    ensures
        clock.len() < 4096 ==> block_cache::with_room(clock, hand) == clock,
        clock.len() == 4096 ==> block_cache::with_room(clock, hand).len() == 3072,
        block_cache::with_room(clock, hand).len() < 4096,
{
    law_sectors_are_dropped(clock, hand, 3072);
}

/// A read puts the bytes of the sector into the buffer, as many as it holds.
pub proof fn law_buffer_is_filled(buf: Seq<u8>, data: Seq<u8>)
    requires
        data.len() == 512,
    ensures
        buf.len() <= 512 ==> block_cache::filled(buf, data) == data.take(buf.len() as int),
        buf.len() >= 512 ==> block_cache::filled(buf, data) == data + buf.skip(512),
{
    if buf.len() <= 512 {
        assert(block_cache::filled(buf, data) =~= data.take(buf.len() as int));
    }
    if buf.len() >= 512 {
        assert(block_cache::filled(buf, data) =~= data + buf.skip(512));
    }
}

/// The cache holds 4096 sectors, and where it is full it gives up a quarter of them; 64 pages
/// are remembered with their places.
pub proof fn law_sizes_of_the_caches()
    ensures
        crate::blockdriver::block_cache::CACHE_SIZE == 4096,
        4 * crate::blockdriver::block_cache::CACHE_TARGET == 3
            * crate::blockdriver::block_cache::CACHE_SIZE,
        crate::blockdriver::dma::TRANS_CACHE_SIZE == 64,
{
}

} // verus!
