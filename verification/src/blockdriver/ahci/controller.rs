//! Bringing a controller and its ports up.

use crate::blockdriver::ahci::command::{make_region, parse_identify, write_std_fis, MAX_PRDT};
use crate::blockdriver::ahci::port::{
    read_port, set_command_bits, stop_engine, wait_slots, write_frame, write_ports, Action,
    AhciError, AhciPort, Page, ALL_BITS, CMD_FRE, CMD_POD, CMD_ST, CMD_SUD, PORT_CI, PORT_CLB,
    PORT_CLBU, PORT_FB, PORT_FBU, PORT_IE, PORT_IS, PORT_SERR, PORT_SSTS,
};
use crate::blockdriver::ahci::slots::AHCI_MAX_SLOTS;
use crate::replay::{Link, Run, Step};
use vstd::prelude::*;

verus! {

// Registers of the controller.
pub const HBA_CAP: u32 = 0x00;

pub const HBA_GHC: u32 = 0x04;

pub const HBA_PI: u32 = 0x0C;

pub const GHC_HR: u32 = 0x0000_0001;

pub const GHC_AE: u32 = 0x8000_0000;

pub const SSTS_DET_MASK: u32 = 0x0F;

pub const SSTS_DET_ESTAB: u32 = 3;

/// The interrupts of a port that the driver wants.
pub const PORT_INTERRUPTS: u32 = 0x0000_0089;

/// How often the controller is looked at until its reset is over.
pub const RESET_POLLS: u32 = 1000;

/// IDENTIFY DEVICE.
pub const ATA_IDENTIFY: u8 = 0xEC;

type Ask = Link<Action>;

/// What is known of a port that came up.
#[verifier::ext_equal]
pub struct PortView {
    pub port: u8,
    pub scratch_paddr: u64,
    pub max_prdt: usize,
    pub n_slots: u8,
    pub sector_count: u64,
    pub lba48: bool,
    pub ncq: bool,
    pub model: Seq<u8>,
    pub slot_alloc: u32,
}

impl View for AhciPort {
    type V = PortView;

    open spec fn view(&self) -> PortView {
        PortView {
            port: self.port,
            scratch_paddr: self.scratch_paddr,
            max_prdt: self.max_prdt,
            n_slots: self.n_slots,
            sector_count: self.sector_count,
            lba48: self.lba48,
            ncq: self.ncq,
            model: self.model@,
            slot_alloc: self.slot_alloc,
        }
    }
}

/// Allocating the command tables of the slots from `s` on, behind those at
/// `tables`.
pub open spec fn tables_allocated(r: Seq<u64>, p: int, port: u8, n: int, tables: Seq<u64>) -> Run<
    Action,
    Option<Seq<u64>>,
>
    decreases n - tables.len(),
{
    if tables.len() >= n {
        Run::Gives(Some(tables), p)
    } else {
        match crate::replay::asked(
            r,
            p,
            Action::AllocPage(Page::Table(port, tables.len() as u8)),
        ) {
            Run::Wants(a) => Run::Wants(a),
            Run::Gives(v, q) => if v == 0 {
                Run::Gives(None, q)
            } else {
                tables_allocated(r, q, port, n, tables.push((v - 1) as u64))
            },
        }
    }
}

/// Writing the headers of the slots from `s` on.
pub open spec fn headers_written(r: Seq<u64>, p: int, port: u8, tables: Seq<u64>, s: int) -> Run<
    Action,
    (),
>
    decreases tables.len() - s,
{
    if s >= tables.len() {
        Run::Gives((), p)
    } else {
        crate::replay::follow(
            crate::replay::asked(r, p, Action::WriteListHeader(port, s as u8, tables[s])),
            |w: u64, q: int| headers_written(r, q, port, tables, s + 1),
        )
    }
}

/// What is written to a port before it starts: the two addresses, and no flag
/// pending and no interrupt.
pub open spec fn programming(list: u64, received: u64) -> Seq<(u32, u32)> {
    seq![
        (PORT_CLB, (list % 0x1_0000_0000) as u32),
        (PORT_CLBU, (list / 0x1_0000_0000) as u32),
        (PORT_FB, (received % 0x1_0000_0000) as u32),
        (PORT_FBU, (received / 0x1_0000_0000) as u32),
        (PORT_IS, ALL_BITS),
        (PORT_SERR, ALL_BITS),
        (PORT_IE, 0u32),
    ]
}

/// Starting a port: power, then the receiver, then the engine.
pub open spec fn port_started(r: Seq<u64>, p: int, port: u8, list: u64, received: u64) -> Run<
    Action,
    (),
> {
    crate::replay::follow(
        crate::blockdriver::ahci::port::port_written(r, p, port, programming(list, received), 0),
        |w: (), q: int|
            crate::replay::follow(
                crate::blockdriver::ahci::port::command_bits_set(r, q, port, CMD_SUD | CMD_POD),
                |w2: (), q2: int|
                    crate::replay::follow(
                        crate::blockdriver::ahci::port::command_bits_set(r, q2, port, CMD_FRE),
                        |w3: (), q3: int|
                            crate::blockdriver::ahci::port::command_bits_set(r, q3, port, CMD_ST),
                    ),
            ),
    )
}

/// Whether a port has a link, at once or within the time that it is given.
pub open spec fn link_awaited(r: Seq<u64>, p: int, port: u8) -> Run<Action, bool> {
    crate::replay::follow(
        crate::replay::asked(r, p, Action::ReadPort(port, PORT_SSTS)),
        |v: u64, q: int|
            if crate::blockdriver::ahci::port::reg(v) & SSTS_DET_MASK == SSTS_DET_ESTAB {
                Run::Gives(true, q)
            } else {
                crate::replay::follow(
                    crate::replay::asked(r, q, Action::AwaitLink(port)),
                    |up: u64, q2: int| Run::Gives(crate::replay::is_set(up), q2),
                )
            },
    )
}

/// Reading the 256 words of a port's scratch page.
pub open spec fn scratch_read(r: Seq<u64>, p: int, port: u8) -> Run<Action, Seq<u16>> {
    if p + 256 <= r.len() {
        Run::Gives(Seq::new(256, |i: int| (r[p + i] % 0x1_0000) as u16), p + 256)
    } else {
        Run::Wants(Action::ReadScratch(port, (r.len() - p) as u32))
    }
}

/// Sending IDENTIFY through slot 0, its answer going to the scratch page.
pub open spec fn identify_sent(r: Seq<u64>, p: int, port: u8, scratch: u64) -> Run<
    Action,
    Result<(), AhciError>,
> {
    crate::replay::follow(
        crate::replay::asked(r, p, Action::ClearTable(0)),
        |w: u64, q: int|
            crate::replay::follow(
                crate::blockdriver::ahci::port::fis_written(
                    r,
                    q,
                    0,
                    crate::blockdriver::ahci::command::std_fis(false, 0, 0, ATA_IDENTIFY),
                    0,
                ),
                |w2: (), q2: int|
                    crate::replay::follow(
                        crate::blockdriver::ahci::port::header_written(
                            r,
                            q2,
                            0,
                            false,
                            1,
                            crate::blockdriver::ahci::command::region(scratch, 512),
                        ),
                        |w3: Result<(), AhciError>, q3: int|
                            crate::replay::follow(
                                crate::replay::asked(r, q3, Action::WritePort(port, PORT_CI, 1)),
                                |w4: u64, q4: int|
                                    crate::blockdriver::ahci::port::slots_awaited(r, q4, port, 1),
                            ),
                    ),
            ),
    )
}

/// The port that the answer to IDENTIFY describes.
pub open spec fn port_of(
    port: u8,
    scratch: u64,
    max_prdt: usize,
    n_slots: u8,
    words: Seq<u16>,
) -> PortView {
    PortView {
        port,
        scratch_paddr: scratch,
        max_prdt,
        n_slots,
        sector_count: crate::blockdriver::ahci::command::sectors_of(words) as u64,
        lba48: words[83] & 0x0400 != 0,
        ncq: words[76] & 0x0100 != 0,
        model: crate::blockdriver::ahci::command::zero_padded(
            crate::blockdriver::ahci::command::model_bytes(words),
        ),
        slot_alloc: 0,
    }
}

/// Asking a disk who it is, and clearing the flags that this has left.
pub open spec fn disk_identified(
    r: Seq<u64>,
    p: int,
    port: u8,
    scratch: u64,
    max_prdt: usize,
    n_slots: u8,
) -> Run<Action, Result<PortView, AhciError>> {
    crate::replay::follow(
        identify_sent(r, p, port, scratch),
        |res: Result<(), AhciError>, q: int|
            match res {
                Err(e) => Run::Gives(Err(e), q),
                Ok(_) => crate::replay::follow(
                    scratch_read(r, q, port),
                    |words: Seq<u16>, q2: int|
                        crate::replay::follow(
                            crate::blockdriver::ahci::port::port_written(
                                r,
                                q2,
                                port,
                                seq![(PORT_IS, ALL_BITS), (PORT_SERR, ALL_BITS)],
                                0,
                            ),
                            |w: (), q3: int|
                                Run::Gives(
                                    Ok(port_of(port, scratch, max_prdt, n_slots, words)),
                                    q3,
                                ),
                        ),
                ),
            },
    )
}

/// Allocating one page: its physical address, or `e`.
pub open spec fn page_allocated(r: Seq<u64>, p: int, page: Page, e: AhciError) -> Run<
    Action,
    Result<u64, AhciError>,
> {
    crate::replay::follow(
        crate::replay::asked(r, p, Action::AllocPage(page)),
        |v: u64, q: int|
            if v == 0 {
                Run::Gives(Err(e), q)
            } else {
                Run::Gives(Ok((v - 1) as u64), q)
            },
    )
}

/// Allocating the pages of a port: command list, received frames, scratch.
pub open spec fn pages_allocated(r: Seq<u64>, p: int, port: u8) -> Run<
    Action,
    Result<(u64, u64, u64), AhciError>,
> {
    crate::replay::follow(
        page_allocated(r, p, Page::List(port), AhciError::OomList),
        |list: Result<u64, AhciError>, q: int|
            match list {
                Err(e) => Run::Gives(Err(e), q),
                Ok(cl) => crate::replay::follow(
                    page_allocated(r, q, Page::Received(port), AhciError::OomReceived),
                    |received: Result<u64, AhciError>, q2: int|
                        match received {
                            Err(e) => Run::Gives(Err(e), q2),
                            Ok(fb) => crate::replay::follow(
                                page_allocated(r, q2, Page::Scratch(port), AhciError::OomScratch),
                                |scratch: Result<u64, AhciError>, q3: int|
                                    match scratch {
                                        Err(e) => Run::Gives(Err(e), q3),
                                        Ok(sc) => Run::Gives(Ok((cl, fb, sc)), q3),
                                    },
                            ),
                        },
                ),
            },
    )
}

/// Bringing a port up: it is stopped, given its pages, started and asked who is
/// there.
pub open spec fn port_brought_up(
    r: Seq<u64>,
    p: int,
    port: u8,
    max_prdt: usize,
    n_slots: u8,
) -> Run<Action, Result<PortView, AhciError>> {
    crate::replay::follow(
        crate::blockdriver::ahci::port::engine_off(r, p, port),
        |w: (), q: int|
            crate::replay::follow(
                pages_allocated(r, q, port),
                |pages: Result<(u64, u64, u64), AhciError>, q2: int|
                    match pages {
                        Err(e) => Run::Gives(Err(e), q2),
                        Ok(at) => port_equipped(r, q2, port, max_prdt, n_slots, at),
                    },
            ),
    )
}

pub open spec fn port_equipped(
    r: Seq<u64>,
    p: int,
    port: u8,
    max_prdt: usize,
    n_slots: u8,
    at: (u64, u64, u64),
) -> Run<Action, Result<PortView, AhciError>> {
    crate::replay::follow(
        tables_allocated(r, p, port, n_slots as int, Seq::empty()),
        |tables: Option<Seq<u64>>, q: int|
            match tables {
                None => Run::Gives(Err(AhciError::OomTable), q),
                Some(t) => crate::replay::follow(
                    headers_written(r, q, port, t, 0),
                    |w: (), q2: int|
                        crate::replay::follow(
                            port_started(r, q2, port, at.0, at.1),
                            |w2: (), q3: int|
                                crate::replay::follow(
                                    link_awaited(r, q3, port),
                                    |up: bool, q4: int|
                                        if up {
                                            disk_identified(r, q4, port, at.2, max_prdt, n_slots)
                                        } else {
                                            Run::Gives(Err(AhciError::NoDevice), q4)
                                        },
                                ),
                        ),
                ),
            },
    )
}

/// A part of a procedure has handed back a value by its view.
pub open spec fn went_to<T: View>(
    before: Ask,
    after: Ask,
    r: Option<Result<T, AhciError>>,
    run: Run<Action, Result<T::V, AhciError>>,
) -> bool {
    &&& after.inv()
    &&& after.replies == before.replies
    &&& match run {
        Run::Wants(a) => r is None && after.wanted == Some(a),
        Run::Gives(res, pos) => {
            &&& r is Some
            &&& after.used == pos
            &&& match res {
                Err(e) => r->0 == Err::<T, AhciError>(e),
                Ok(v) => r->0 is Ok && r->0->Ok_0@ == v,
            }
        },
    }
}

fn alloc_page(l: &mut Ask, page: Page, e: AhciError) -> (r: Option<Result<u64, AhciError>>)
    requires
        old(l).inv(),
    ensures
        old(l).went(*final(l), r, page_allocated(old(l).replies@, old(l).used as int, page, e)),
{
    let v: u64 = l.ask(Action::AllocPage(page))?;
    if v == 0 {
        Some(Err(e))
    } else {
        Some(Ok(v - 1))
    }
}

fn alloc_pages(l: &mut Ask, port: u8) -> (r: Option<Result<(u64, u64, u64), AhciError>>)
    requires
        old(l).inv(),
    ensures
        old(l).went(*final(l), r, pages_allocated(old(l).replies@, old(l).used as int, port)),
{
    match alloc_page(l, Page::List(port), AhciError::OomList)? {
        Err(e) => Some(Err(e)),
        Ok(cl) => match alloc_page(l, Page::Received(port), AhciError::OomReceived)? {
            Err(e) => Some(Err(e)),
            Ok(fb) => match alloc_page(l, Page::Scratch(port), AhciError::OomScratch)? {
                Err(e) => Some(Err(e)),
                Ok(sc) => Some(Ok((cl, fb, sc))),
            },
        },
    }
}

fn alloc_tables(l: &mut Ask, port: u8, n: u8) -> (r: Option<Option<Vec<u64>>>)
    requires
        old(l).inv(),
    ensures
        final(l).inv(),
        final(l).replies == old(l).replies,
        match tables_allocated(
            old(l).replies@,
            old(l).used as int,
            port,
            n as int,
            Seq::empty(),
        ) {
            Run::Wants(a) => r is None && final(l).wanted == Some(a),
            Run::Gives(None, pos) => r == Some(None::<Vec<u64>>) && final(l).used == pos,
            Run::Gives(Some(t), pos) => r is Some && r->0 is Some && r->0->0@ == t && t.len() == n
                && final(l).used == pos,
        },
{
    let mut tables: Vec<u64> = Vec::new();
    assert(tables@ =~= Seq::<u64>::empty());
    let ghost whole = tables_allocated(l.replies@, l.used as int, port, n as int, tables@);
    let mut s: u8 = 0;
    while s < n
        invariant
            l.inv(),
            l.replies == old(l).replies,
            s <= n,
            tables@.len() == s,
            whole == tables_allocated(l.replies@, l.used as int, port, n as int, tables@),
            whole == tables_allocated(
                old(l).replies@,
                old(l).used as int,
                port,
                n as int,
                Seq::empty(),
            ),
        decreases n - s,
    {
        let v: u64 = l.ask(Action::AllocPage(Page::Table(port, s)))?;
        if v == 0 {
            return Some(None);
        }
        tables.push(v - 1);
        s = s + 1;
    }
    Some(Some(tables))
}

fn write_headers(l: &mut Ask, port: u8, tables: &Vec<u64>, s: usize) -> (r: Option<()>)
    requires
        old(l).inv(),
        s <= tables@.len() <= AHCI_MAX_SLOTS,
    ensures
        old(l).went(
            *final(l),
            r,
            headers_written(old(l).replies@, old(l).used as int, port, tables@, s as int),
        ),
    decreases tables@.len() - s,
{
    if s >= tables.len() {
        return Some(());
    }
    l.ask(Action::WriteListHeader(port, s as u8, tables[s]))?;
    write_headers(l, port, tables, s + 1)
}

fn start_port(l: &mut Ask, port: u8, list: u64, received: u64) -> (r: Option<()>)
    requires
        old(l).inv(),
    ensures
        old(l).went(
            *final(l),
            r,
            port_started(old(l).replies@, old(l).used as int, port, list, received),
        ),
{
    let writes: [(u32, u32); 7] = [
        (PORT_CLB, (list % 0x1_0000_0000) as u32),
        (PORT_CLBU, (list / 0x1_0000_0000) as u32),
        (PORT_FB, (received % 0x1_0000_0000) as u32),
        (PORT_FBU, (received / 0x1_0000_0000) as u32),
        (PORT_IS, ALL_BITS),
        (PORT_SERR, ALL_BITS),
        (PORT_IE, 0),
    ];
    assert(writes@ =~= programming(list, received));
    write_ports(l, port, &writes, 0)?;
    set_command_bits(l, port, CMD_SUD | CMD_POD)?;
    set_command_bits(l, port, CMD_FRE)?;
    set_command_bits(l, port, CMD_ST)
}

fn wait_ssts_det(l: &mut Ask, port: u8) -> (r: Option<bool>)
    requires
        old(l).inv(),
    ensures
        old(l).went(*final(l), r, link_awaited(old(l).replies@, old(l).used as int, port)),
{
    let ssts: u32 = read_port(l, port, PORT_SSTS)?;
    if ssts & SSTS_DET_MASK == SSTS_DET_ESTAB {
        return Some(true);
    }
    l.ask_flag(Action::AwaitLink(port))
}

fn read_scratch(l: &mut Ask, port: u8) -> (r: Option<Vec<u16>>)
    requires
        old(l).inv(),
    ensures
        final(l).inv(),
        final(l).replies == old(l).replies,
        match scratch_read(old(l).replies@, old(l).used as int, port) {
            Run::Wants(a) => r is None && final(l).wanted == Some(a),
            Run::Gives(words, pos) => r is Some && r->0@ == words && r->0@.len() == 256
                && final(l).used == pos,
        },
{
    let mut words: Vec<u16> = Vec::new();
    let mut i: u32 = 0;
    while i < 256
        invariant
            l.inv(),
            l.replies == old(l).replies,
            i <= 256,
            l.used == old(l).used + i,
            words@.len() == i,
            forall|k: int|
                0 <= k < i ==> #[trigger] words@[k] == (l.replies@[old(l).used + k] % 0x1_0000) as u16,
        decreases 256 - i,
    {
        let v: u64 = l.ask(Action::ReadScratch(port, i))?;
        words.push((v % 0x1_0000) as u16);
        i = i + 1;
    }
    assert(words@ =~= Seq::new(256, |k: int| (l.replies@[old(l).used + k] % 0x1_0000) as u16));
    Some(words)
}

fn send_identify(l: &mut Ask, port: u8, scratch: u64) -> (r: Option<Result<(), AhciError>>)
    requires
        old(l).inv(),
    ensures
        old(l).went(*final(l), r, identify_sent(old(l).replies@, old(l).used as int, port, scratch)),
{
    l.ask(Action::ClearTable(0))?;
    let words: [u32; 5] = write_std_fis(false, 0, 0, ATA_IDENTIFY);
    write_frame(l, 0, &words, 0)?;
    let e = make_region(scratch, 512);
    let _ = crate::blockdriver::ahci::port::write_header(l, 0, false, 1, e)?;
    l.ask(Action::WritePort(port, PORT_CI, 1))?;
    wait_slots(l, port, 1)
}

fn identify(l: &mut Ask, port: u8, scratch: u64, max_prdt: usize, n_slots: u8) -> (r: Option<
    Result<AhciPort, AhciError>,
>)
    requires
        old(l).inv(),
        max_prdt <= MAX_PRDT,
        n_slots <= AHCI_MAX_SLOTS,
    ensures
        went_to(
            *old(l),
            *final(l),
            r,
            disk_identified(
                old(l).replies@,
                old(l).used as int,
                port,
                scratch,
                max_prdt,
                n_slots,
            ),
        ),
        r is Some && r->0 is Ok ==> r->0->Ok_0.inv(),
{
    match send_identify(l, port, scratch)? {
        Err(e) => Some(Err(e)),
        Ok(()) => {
            let words: Vec<u16> = read_scratch(l, port)?;
            let id = parse_identify(&words);
            let clear: [(u32, u32); 2] = [(PORT_IS, ALL_BITS), (PORT_SERR, ALL_BITS)];
            assert(clear@ =~= seq![(PORT_IS, ALL_BITS), (PORT_SERR, ALL_BITS)]);
            write_ports(l, port, &clear, 0)?;
            let made = AhciPort {
                port,
                scratch_paddr: scratch,
                max_prdt,
                n_slots,
                sector_count: id.sector_count,
                lba48: id.lba48,
                ncq: id.ncq,
                model: id.model,
                slot_alloc: 0,
            };
            assert(made@ =~= port_of(port, scratch, max_prdt, n_slots, words@));
            Some(Ok(made))
        },
    }
}

/// Brings a port up.
fn init_one(l: &mut Ask, port: u8, max_prdt: usize, n_slots: u8) -> (r: Option<
    Result<AhciPort, AhciError>,
>)
    requires
        old(l).inv(),
        max_prdt <= MAX_PRDT,
        n_slots <= AHCI_MAX_SLOTS,
    ensures
        went_to(
            *old(l),
            *final(l),
            r,
            port_brought_up(old(l).replies@, old(l).used as int, port, max_prdt, n_slots),
        ),
        r is Some && r->0 is Ok ==> r->0->Ok_0.inv(),
{
    stop_engine(l, port)?;
    match alloc_pages(l, port)? {
        Err(e) => Some(Err(e)),
        Ok((list, received, scratch)) => match alloc_tables(l, port, n_slots)? {
            None => Some(Err(AhciError::OomTable)),
            Some(tables) => {
                write_headers(l, port, &tables, 0)?;
                start_port(l, port, list, received)?;
                if !wait_ssts_det(l, port)? {
                    return Some(Err(AhciError::NoDevice));
                }
                identify(l, port, scratch, max_prdt, n_slots)
            },
        },
    }
}

/// The number of ports that the capability register speaks of.
pub open spec fn ports_in(cap: u32) -> int {
    ((cap >> 17) & 0x1F) + 1
}

/// The number of slots that the capability register speaks of.
pub open spec fn slots_in(cap: u32) -> int {
    ((cap >> 8) & 0x1F) + 1
}

/// The bytes of the register area of a controller with `n` ports, in whole pages.
pub open spec fn register_bytes(n: int) -> int {
    (0x100 + n * 0x80 + 0x80 + 0xFFF) / 0x1000 * 0x1000
}

/// The views of ports.
pub open spec fn views(ports: Seq<AhciPort>) -> Seq<PortView> {
    Seq::new(ports.len(), |i: int| ports[i]@)
}

/// Bringing up the ports from number `i` on that `pi` marks, behind those at
/// `done`. A port that does not come up is left out.
pub open spec fn ports_brought_up(
    r: Seq<u64>,
    p: int,
    pi: u32,
    i: int,
    n: int,
    slots: u8,
    done: Seq<PortView>,
) -> Run<Action, Seq<PortView>>
    decreases n - i,
{
    if i >= n {
        Run::Gives(done, p)
    } else if pi & (1u32 << (i as u8)) == 0 {
        ports_brought_up(r, p, pi, i + 1, n, slots, done)
    } else {
        match port_brought_up(r, p, i as u8, MAX_PRDT, slots) {
            Run::Wants(a) => Run::Wants(a),
            Run::Gives(res, q) => ports_brought_up(
                r,
                q,
                pi,
                i + 1,
                n,
                slots,
                match res {
                    Ok(v) => done.push(v),
                    Err(_) => done,
                },
            ),
        }
    }
}

/// Looking `left` times at most whether the controller's reset is over.
pub open spec fn reset_awaited(r: Seq<u64>, p: int, left: nat) -> Run<Action, ()>
    decreases left,
{
    if left == 0 {
        Run::Gives((), p)
    } else {
        crate::replay::follow(
            crate::replay::asked(r, p, Action::ReadHba(HBA_GHC)),
            |v: u64, q: int|
                if crate::blockdriver::ahci::port::reg(v) & GHC_HR == 0 {
                    Run::Gives((), q)
                } else {
                    reset_awaited(r, q, (left - 1) as nat)
                },
        )
    }
}

/// Resetting the controller and switching it to AHCI: whether the reset came to
/// an end.
pub open spec fn hba_reset(r: Seq<u64>, p: int) -> Run<Action, bool> {
    crate::replay::follow(
        crate::replay::asked(r, p, Action::WriteHba(HBA_GHC, GHC_HR)),
        |w: u64, q: int|
            crate::replay::follow(
                reset_awaited(r, q, RESET_POLLS as nat),
                |w2: (), q2: int|
                    crate::replay::follow(
                        crate::replay::asked(r, q2, Action::ReadHba(HBA_GHC)),
                        |v: u64, q3: int|
                            if crate::blockdriver::ahci::port::reg(v) & GHC_HR != 0 {
                                Run::Gives(false, q3)
                            } else {
                                crate::replay::follow(
                                    crate::replay::asked(r, q3, Action::ReadHba(HBA_GHC)),
                                    |g: u64, q4: int|
                                        crate::replay::follow(
                                            crate::replay::asked(
                                                r,
                                                q4,
                                                Action::WriteHba(
                                                    HBA_GHC,
                                                    crate::blockdriver::ahci::port::reg(g) | GHC_AE,
                                                ),
                                            ),
                                            |w3: u64, q5: int| Run::Gives(true, q5),
                                        ),
                                )
                            },
                    ),
            ),
    )
}

/// Switching the interrupts of the ports on, from number `i` on.
pub open spec fn interrupts_on(r: Seq<u64>, p: int, ports: Seq<PortView>, i: int) -> Run<Action, ()>
    decreases ports.len() - i,
{
    if i >= ports.len() {
        Run::Gives((), p)
    } else {
        crate::replay::follow(
            crate::replay::asked(
                r,
                p,
                Action::WritePort(ports[i].port, PORT_IE, PORT_INTERRUPTS),
            ),
            |w: u64, q: int| interrupts_on(r, q, ports, i + 1),
        )
    }
}

/// Wiring the interrupt that all ports share, where there are ports and the
/// controller has a line. A handler whose line cannot be routed is taken back.
pub open spec fn irq_wired(r: Seq<u64>, p: int, ports: Seq<PortView>, line: u8) -> Run<Action, ()> {
    if ports.len() == 0 || line == 0 {
        Run::Gives((), p)
    } else {
        crate::replay::follow(
            crate::replay::asked(r, p, Action::RegisterIrq),
            |v: u64, q: int|
                if v == 0 {
                    Run::Gives((), q)
                } else {
                    crate::replay::follow(
                        crate::replay::asked(r, q, Action::EnableIrq(line)),
                        |routed: u64, q2: int|
                            if crate::replay::is_set(routed) {
                                interrupts_on(r, q2, ports, 0)
                            } else {
                                crate::replay::follow(
                                    crate::replay::asked(r, q2, Action::UnregisterIrq),
                                    |w: u64, q3: int| Run::Gives((), q3),
                                )
                            },
                    )
                },
        )
    }
}

/// Reading what the controller can do, with as many of its registers mapped as it
/// has: the capabilities, and the ports that it implements.
pub open spec fn capabilities_read(r: Seq<u64>, p: int) -> Run<
    Action,
    Result<(u32, u32), AhciError>,
> {
    crate::replay::follow(
        crate::replay::asked(r, p, Action::MapRegisters(0x1000)),
        |m: u64, q: int|
            if m == 0 {
                Run::Gives(Err(AhciError::NoMapping), q)
            } else {
                crate::replay::follow(
                    crate::replay::asked(r, q, Action::ReadHba(HBA_CAP)),
                    |c: u64, q2: int|
                        crate::replay::follow(
                            crate::replay::asked(r, q2, Action::ReadHba(HBA_PI)),
                            |pi: u64, q3: int|
                                crate::replay::follow(
                                    crate::replay::asked(
                                        r,
                                        q3,
                                        Action::MapRegisters(
                                            register_bytes(
                                                ports_in(crate::blockdriver::ahci::port::reg(c)),
                                            ) as u64,
                                        ),
                                    ),
                                    |m2: u64, q4: int|
                                        if m2 == 0 {
                                            Run::Gives(Err(AhciError::NoMapping), q4)
                                        } else {
                                            Run::Gives(
                                                Ok(
                                                    (
                                                        crate::blockdriver::ahci::port::reg(c),
                                                        crate::blockdriver::ahci::port::reg(pi),
                                                    ),
                                                ),
                                                q4,
                                            )
                                        },
                                ),
                        ),
                )
            },
    )
}

/// Bringing a controller up: the ports that came up.
pub open spec fn controller_up(r: Seq<u64>, p: int, mapped: bool, line: u8) -> Run<
    Action,
    Result<Seq<PortView>, AhciError>,
> {
    if !mapped {
        Run::Gives(Err(AhciError::NotMemoryMapped), p)
    } else {
        crate::replay::follow(
            capabilities_read(r, p),
            |caps: Result<(u32, u32), AhciError>, q: int|
                match caps {
                    Err(e) => Run::Gives(Err(e), q),
                    Ok(c) => crate::replay::follow(
                        hba_reset(r, q),
                        |over: bool, q2: int|
                            if over {
                                ports_up(r, q2, c.0, c.1, line)
                            } else {
                                Run::Gives(Err(AhciError::HbaResetTimeout), q2)
                            },
                    ),
                },
        )
    }
}

pub open spec fn ports_up(r: Seq<u64>, p: int, cap: u32, pi: u32, line: u8) -> Run<
    Action,
    Result<Seq<PortView>, AhciError>,
> {
    crate::replay::follow(
        ports_brought_up(r, p, pi, 0, ports_in(cap), slots_in(cap) as u8, Seq::empty()),
        |ports: Seq<PortView>, q: int|
            crate::replay::follow(
                irq_wired(r, q, ports, line),
                |w: (), q2: int| Run::Gives(Ok(ports), q2),
            ),
    )
}

/// The counts in the capability register are between 1 and 32.
pub proof fn lemma_fields(cap: u32)
    ensures
        1 <= ports_in(cap) <= 32,
        1 <= slots_in(cap) <= 32,
{
    assert(((cap >> 17) & 0x1F) <= 31 && ((cap >> 8) & 0x1F) <= 31) by (bit_vector);
}

fn bring_up_ports(l: &mut Ask, pi: u32, n: u8, slots: u8) -> (r: Option<Vec<AhciPort>>)
    requires
        old(l).inv(),
        n <= 32,
        slots <= AHCI_MAX_SLOTS,
    ensures
        final(l).inv(),
        final(l).replies == old(l).replies,
        match ports_brought_up(
            old(l).replies@,
            old(l).used as int,
            pi,
            0,
            n as int,
            slots,
            Seq::empty(),
        ) {
            Run::Wants(a) => r is None && final(l).wanted == Some(a),
            Run::Gives(done, pos) => r is Some && views(r->0@) == done && final(l).used == pos,
        },
        r is Some ==> forall|i: int| 0 <= i < r->0@.len() ==> (#[trigger] r->0@[i]).inv(),
{
    let mut ports: Vec<AhciPort> = Vec::new();
    let mut p: u8 = 0;
    assert(views(ports@) =~= Seq::<PortView>::empty());
    let ghost whole = ports_brought_up(
        l.replies@,
        l.used as int,
        pi,
        0,
        n as int,
        slots,
        Seq::empty(),
    );
    while p < n
        invariant
            l.inv(),
            l.replies == old(l).replies,
            p <= n <= 32,
            slots <= AHCI_MAX_SLOTS,
            forall|i: int| 0 <= i < ports@.len() ==> (#[trigger] ports@[i]).inv(),
            whole == ports_brought_up(
                l.replies@,
                l.used as int,
                pi,
                p as int,
                n as int,
                slots,
                views(ports@),
            ),
            whole == ports_brought_up(
                old(l).replies@,
                old(l).used as int,
                pi,
                0,
                n as int,
                slots,
                Seq::empty(),
            ),
        decreases n - p,
    {
        if pi & (1u32 << p) != 0 {
            match init_one(l, p, MAX_PRDT, slots)? {
                Ok(port) => {
                    let ghost before = ports@;
                    ports.push(port);
                    assert(views(ports@) =~= views(before).push(port@));
                },
                Err(_) => {},
            }
        }
        p = p + 1;
    }
    Some(ports)
}

fn await_reset(l: &mut Ask, left: u32) -> (r: Option<()>)
    requires
        old(l).inv(),
    ensures
        old(l).went(*final(l), r, reset_awaited(old(l).replies@, old(l).used as int, left as nat)),
    decreases left,
{
    if left == 0 {
        return Some(());
    }
    let v: u32 = read_hba(l, HBA_GHC)?;
    if v & GHC_HR == 0 {
        Some(())
    } else {
        await_reset(l, left - 1)
    }
}

fn read_hba(l: &mut Ask, off: u32) -> (r: Option<u32>)
    requires
        old(l).inv(),
    ensures
        old(l).went(
            *final(l),
            r,
            match crate::replay::asked(old(l).replies@, old(l).used as int, Action::ReadHba(off)) {
                Run::Wants(w) => Run::Wants(w),
                Run::Gives(v, pos) => Run::Gives(crate::blockdriver::ahci::port::reg(v), pos),
            },
        ),
{
    let v: u64 = l.ask(Action::ReadHba(off))?;
    Some((v % 0x1_0000_0000) as u32)
}

fn reset_hba(l: &mut Ask) -> (r: Option<bool>)
    requires
        old(l).inv(),
    ensures
        old(l).went(*final(l), r, hba_reset(old(l).replies@, old(l).used as int)),
{
    l.ask(Action::WriteHba(HBA_GHC, GHC_HR))?;
    await_reset(l, RESET_POLLS)?;
    let v: u32 = read_hba(l, HBA_GHC)?;
    if v & GHC_HR != 0 {
        return Some(false);
    }
    let g: u32 = read_hba(l, HBA_GHC)?;
    l.ask(Action::WriteHba(HBA_GHC, g | GHC_AE))?;
    Some(true)
}

fn switch_interrupts_on(l: &mut Ask, ports: &Vec<AhciPort>, i: usize) -> (r: Option<()>)
    requires
        old(l).inv(),
        i <= ports@.len(),
    ensures
        old(l).went(
            *final(l),
            r,
            interrupts_on(old(l).replies@, old(l).used as int, views(ports@), i as int),
        ),
    decreases ports@.len() - i,
{
    if i >= ports.len() {
        return Some(());
    }
    assert(views(ports@)[i as int].port == ports@[i as int].port);
    l.ask(Action::WritePort(ports[i].port, PORT_IE, PORT_INTERRUPTS))?;
    switch_interrupts_on(l, ports, i + 1)
}

fn wire_irq(l: &mut Ask, ports: &Vec<AhciPort>, line: u8) -> (r: Option<()>)
    requires
        old(l).inv(),
    ensures
        old(l).went(
            *final(l),
            r,
            irq_wired(old(l).replies@, old(l).used as int, views(ports@), line),
        ),
{
    if ports.len() == 0 || line == 0 {
        return Some(());
    }
    if !l.ask_flag(Action::RegisterIrq)? {
        return Some(());
    }
    if l.ask_flag(Action::EnableIrq(line))? {
        switch_interrupts_on(l, ports, 0)
    } else {
        l.ask(Action::UnregisterIrq)?;
        Some(())
    }
}

fn read_capabilities(l: &mut Ask) -> (r: Option<Result<(u32, u32), AhciError>>)
    requires
        old(l).inv(),
    ensures
        old(l).went(*final(l), r, capabilities_read(old(l).replies@, old(l).used as int)),
{
    if !l.ask_flag(Action::MapRegisters(0x1000))? {
        return Some(Err(AhciError::NoMapping));
    }
    let cap: u32 = read_hba(l, HBA_CAP)?;
    let pi: u32 = read_hba(l, HBA_PI)?;
    proof {
        lemma_fields(cap);
    }
    let n: u64 = (((cap >> 17) & 0x1F) + 1) as u64;
    let size: u64 = (0x100 + n * 0x80 + 0x80 + 0xFFF) / 0x1000 * 0x1000;
    if !l.ask_flag(Action::MapRegisters(size))? {
        return Some(Err(AhciError::NoMapping));
    }
    Some(Ok((cap, pi)))
}

fn run_init(l: &mut Ask, mapped: bool, line: u8) -> (r: Option<Result<Vec<AhciPort>, AhciError>>)
    requires
        old(l).inv(),
    ensures
        final(l).inv(),
        final(l).replies == old(l).replies,
        match controller_up(old(l).replies@, old(l).used as int, mapped, line) {
            Run::Wants(a) => r is None && final(l).wanted == Some(a),
            Run::Gives(Err(e), pos) => r == Some(Err::<Vec<AhciPort>, AhciError>(e))
                && final(l).used == pos,
            Run::Gives(Ok(ports), pos) => r is Some && r->0 is Ok && views(r->0->Ok_0@) == ports
                && final(l).used == pos,
        },
        r is Some && r->0 is Ok ==> forall|i: int|
            0 <= i < r->0->Ok_0@.len() ==> (#[trigger] r->0->Ok_0@[i]).inv(),
{
    if !mapped {
        return Some(Err(AhciError::NotMemoryMapped));
    }
    match read_capabilities(l)? {
        Err(e) => Some(Err(e)),
        Ok((cap, pi)) => {
            proof {
                lemma_fields(cap);
            }
            if !reset_hba(l)? {
                return Some(Err(AhciError::HbaResetTimeout));
            }
            let n: u8 = (((cap >> 17) & 0x1F) + 1) as u8;
            let slots: u8 = (((cap >> 8) & 0x1F) + 1) as u8;
            let ports: Vec<AhciPort> = bring_up_ports(l, pi, n, slots)?;
            wire_irq(l, &ports, line)?;
            Some(Ok(ports))
        },
    }
}

/// Brings a controller up, whose registers are mapped into memory or not, and
/// which signals on interrupt line `line`, or on none where that is zero.
pub fn init_controller(replies: Vec<u64>, mapped: bool, line: u8) -> (r: Step<
    Action,
    Result<Vec<AhciPort>, AhciError>,
>)
    ensures
        match controller_up(replies@, 0, mapped, line) {
            Run::Wants(a) => r == Step::<Action, Result<Vec<AhciPort>, AhciError>>::Ask(a),
            Run::Gives(Err(e), _) => r == Step::<Action, Result<Vec<AhciPort>, AhciError>>::Done(
                Err(e),
            ),
            Run::Gives(Ok(ports), _) => r is Done && r->Done_0 is Ok && views(
                r->Done_0->Ok_0@,
            ) == ports,
        },
        r is Done && r->Done_0 is Ok ==> forall|i: int|
            0 <= i < r->Done_0->Ok_0@.len() ==> (#[trigger] r->Done_0->Ok_0@[i]).inv(),
{
    let mut l = Link::start(replies);
    let done: Option<Result<Vec<AhciPort>, AhciError>> = run_init(&mut l, mapped, line);
    l.finish(done)
}

/// The driver for AHCI controllers.
pub struct AhciDriver;

/// What the bus says of a device.
#[derive(Debug, Clone, Copy, PartialEq, Eq, Structural)]
pub struct PciDevice {
    pub bus: u8,
    pub device: u8,
    pub function: u8,
    pub class: u8,
    pub subclass: u8,
    pub prog_if: u8,
    pub interrupt_line: u8,
}

/// The device is a SATA controller with the AHCI interface.
pub open spec fn is_ahci(dev: PciDevice) -> bool {
    dev.class == 0x01 && dev.subclass == 0x06 && dev.prog_if == 0x01
}

/// The bytes of a model up to the zeros at its end.
pub open spec fn unzeroed(s: Seq<u8>) -> Seq<u8>
    decreases s.len(),
{
    if s.len() > 0 && s.last() == 0 {
        unzeroed(s.drop_last())
    } else {
        s
    }
}

/// A model without its padding, as text.
pub open spec fn model_name(model: Seq<u8>) -> Seq<char> {
    if vstd::utf8::valid_utf8(unzeroed(model)) {
        vstd::utf8::decode_utf8(unzeroed(model))
    } else {
        "(bad utf8)"@
    }
}

/// A model without its padding, as text.
pub fn model_text(model: &[u8; 40]) -> (r: String)
    ensures
        r@ == model_name(model@),
{
    let mut n: usize = 40;
    assert(model@.take(40) =~= model@);
    while n > 0 && model[n - 1] == 0
        invariant
            n <= 40,
            model@.len() == 40,
            unzeroed(model@.take(n as int)) == unzeroed(model@),
        decreases n,
    {
        assert(model@.take(n as int).drop_last() =~= model@.take(n - 1));
        n = n - 1;
    }
    let bytes: Vec<u8> = crate::bytes::sub_vec(model, 0, n);
    assert(bytes@ =~= model@.take(n as int));
    assert(unzeroed(model@) == bytes@);
    match crate::text::from_bytes(&bytes) {
        Some(s) => s,
        None => "(bad utf8)".to_string(),
    }
}

impl AhciPort {
    pub fn sector_count(&self) -> (r: u64)
        ensures
            r == self.sector_count,
    {
        self.sector_count
    }

    /// The model, without its padding.
    pub fn model_string(&self) -> (r: String)
        ensures
            r@ == model_name(self.model@),
    {
        model_text(&self.model)
    }
}

} // verus!
