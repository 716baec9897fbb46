//! Storage drivers, and the devices that they found.

use crate::blockdriver::ahci::controller::{AhciDriver, PciDevice};
use vstd::prelude::*;

verus! {

/// A driver for storage controllers. What it accepts has a default, so that a driver that is
/// only used need not say it: some constant of its type, of which nothing can be proved.
pub trait StorageDriver {
    /// The driver's name.
    open spec fn title(&self) -> Seq<char> {
        vstd::pervasive::arbitrary()
    }

    /// The driver can run the device.
    open spec fn accepts(&self, dev: PciDevice) -> bool {
        vstd::pervasive::arbitrary()
    }

    fn name(&self) -> (r: &str)
        ensures
            r@ == self.title(),
    ;

    fn probe(&self, dev: &PciDevice) -> (r: bool)
        ensures
            r == self.accepts(*dev),
    ;
}

impl StorageDriver for AhciDriver {
    open spec fn title(&self) -> Seq<char> {
        "ahci"@
    }

    open spec fn accepts(&self, dev: PciDevice) -> bool {
        crate::blockdriver::ahci::controller::is_ahci(dev)
    }

    fn name(&self) -> (r: &str) {
        "ahci"
    }

    fn probe(&self, dev: &PciDevice) -> (r: bool) {
        dev.class == 0x01 && dev.subclass == 0x06 && dev.prog_if == 0x01
    }
}

/// A driver that was registered.
pub struct Entry {
    pub driver: Box<dyn StorageDriver>,
}

/// The drivers, in the order in which they were registered.
pub struct Registry {
    pub drivers: Vec<Entry>,
}

impl Registry {
    pub fn new() -> (r: Self)
        ensures
            r.drivers@.len() == 0,
    {
        Registry { drivers: Vec::new() }
    }
}

/// A device and a driver that accepts it, by their places.
#[derive(Debug, Clone, Copy, PartialEq, Eq, Structural)]
pub struct Match {
    pub device: usize,
    pub driver: usize,
}

/// The drivers among the first `n` that accept device `d`, in order.
pub open spec fn matches_of(
    drivers: Seq<Entry>,
    devs: Seq<PciDevice>,
    d: int,
    n: int,
) -> Seq<Match>
    decreases n,
{
    if n <= 0 {
        Seq::empty()
    } else {
        let before = matches_of(drivers, devs, d, n - 1);
        if drivers[n - 1].driver.accepts(devs[d]) {
            before.push(Match { device: d as usize, driver: (n - 1) as usize })
        } else {
            before
        }
    }
}

/// What is to be brought up among the first `m` devices: device by device, and for
/// each the drivers that accept it.
pub open spec fn all_matches(
    drivers: Seq<Entry>,
    devs: Seq<PciDevice>,
    m: int,
) -> Seq<Match>
    decreases m,
{
    if m <= 0 {
        Seq::empty()
    } else {
        all_matches(drivers, devs, m - 1) + matches_of(
            drivers,
            devs,
            m - 1,
            drivers.len() as int,
        )
    }
}

pub fn register(reg: &mut Registry, driver: Box<dyn StorageDriver>)
    ensures
        final(reg).drivers@ == old(reg).drivers@.push(Entry { driver }),
{
    reg.drivers.push(Entry { driver });
}

/// Registers the driver that is built in, and says which drivers are to bring up
/// which devices, in order.
pub fn init_all(
    reg: &mut Registry,
    built_in: Box<dyn StorageDriver>,
    devs: &Vec<PciDevice>,
) -> (r: Vec<Match>)
    ensures
        final(reg).drivers@ == old(reg).drivers@.push(Entry { driver: built_in }),
        r@ == all_matches(final(reg).drivers@, devs@, devs@.len() as int),
{
    reg.drivers.push(Entry { driver: built_in });
    let mut out: Vec<Match> = Vec::new();
    let mut d: usize = 0;
    while d < devs.len()
        invariant
            d <= devs@.len(),
            reg.drivers@ == old(reg).drivers@.push(Entry { driver: built_in }),
            out@ == all_matches(reg.drivers@, devs@, d as int),
        decreases devs@.len() - d,
    {
        let mut k: usize = 0;
        let ghost before = out@;
        assert(before + Seq::<Match>::empty() =~= before);
        while k < reg.drivers.len()
            invariant
                d < devs@.len(),
                reg.drivers@ == old(reg).drivers@.push(Entry { driver: built_in }),
                k <= reg.drivers@.len(),
                before == all_matches(reg.drivers@, devs@, d as int),
                out@ == before + matches_of(reg.drivers@, devs@, d as int, k as int),
            decreases reg.drivers@.len() - k,
        {
            if reg.drivers[k].driver.probe(&devs[d]) {
                out.push(Match { device: d, driver: k });
            }
            assert(out@ =~= before + matches_of(reg.drivers@, devs@, d as int, k + 1));
            k = k + 1;
        }
        d = d + 1;
    }
    out
}

/// Takes in what bringing up one controller came to: its devices stand behind those that
/// were found before, in order. A controller that fails adds nothing, and the ones behind
/// it are brought up all the same; the error is handed back for a message.
pub fn take_outcome<T>(found: &mut Vec<T>, outcome: Result<Vec<T>, &'static str>) -> (r: Option<
    &'static str,
>)
    ensures
        match outcome {
            Ok(devices) => final(found)@ == old(found)@ + devices@ && r is None,
            Err(e) => final(found)@ == old(found)@ && r == Some(e),
        },
{
    match outcome {
        Ok(devices) => {
            let mut rest: Vec<T> = devices;
            found.append(&mut rest);
            None
        },
        Err(e) => Some(e),
    }
}

/// The devices that are known, by the numbers that tell them apart. Two disks of
/// one model and size are still two devices.
pub struct BlockDevices {
    pub list: Vec<u64>,
}

/// The list with the new devices behind it, but for those that it holds.
pub open spec fn with_devices(list: Seq<u64>, new: Seq<u64>) -> Seq<u64>
    decreases new.len(),
{
    if new.len() == 0 {
        list
    } else {
        let before = with_devices(list, new.drop_last());
        if before.contains(new.last()) {
            before
        } else {
            before.push(new.last())
        }
    }
}

fn holds(list: &Vec<u64>, id: u64) -> (r: bool)
    ensures
        r == list@.contains(id),
{
    let mut i: usize = 0;
    while i < list.len()
        invariant
            i <= list@.len(),
            forall|k: int| 0 <= k < i ==> list@[k] != id,
        decreases list@.len() - i,
    {
        if list[i] == id {
            return true;
        }
        i = i + 1;
    }
    false
}

/// Appends the devices that are not registered yet.
pub fn register_block_devices(known: &mut BlockDevices, new_devices: Vec<u64>)
    ensures
        final(known).list@ == with_devices(old(known).list@, new_devices@),
{
    let mut i: usize = 0;
    assert(new_devices@.take(0) =~= Seq::<u64>::empty());
    while i < new_devices.len()
        invariant
            i <= new_devices@.len(),
            known.list@ == with_devices(old(known).list@, new_devices@.take(i as int)),
        decreases new_devices@.len() - i,
    {
        assert(new_devices@.take(i + 1).drop_last() =~= new_devices@.take(i as int));
        if !holds(&known.list, new_devices[i]) {
            known.list.push(new_devices[i]);
        }
        i = i + 1;
    }
    assert(new_devices@.take(i as int) =~= new_devices@);
}

/// No device is registered twice, every device that was named is registered, and
/// those that were registered before keep their places.
pub proof fn law_registered_once(list: Seq<u64>, new: Seq<u64>)
    requires
        list.no_duplicates(),
    ensures
        with_devices(list, new).no_duplicates(),
        list.is_prefix_of(with_devices(list, new)),
        forall|i: int| 0 <= i < new.len() ==> with_devices(list, new).contains(#[trigger] new[i]),
    decreases new.len(),
{
    if new.len() > 0 {
        law_registered_once(list, new.drop_last());
        let before = with_devices(list, new.drop_last());
        let after = with_devices(list, new);
        assert forall|i: int| 0 <= i < new.len() implies after.contains(#[trigger] new[i]) by {
            if i < new.len() - 1 {
                assert(new[i] == new.drop_last()[i]);
                let k = choose|k: int| 0 <= k < before.len() && before[k] == new[i];
                assert(after[k] == new[i]);
            } else if !before.contains(new.last()) {
                assert(after[before.len() as int] == new[i]);
            }
        }
    }
}

} // verus!
