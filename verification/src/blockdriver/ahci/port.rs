//! One port with a disk behind it: commands, resets and transfers.

use crate::blockdriver::ahci::command::{
    ask_interrupt, make_region, write_ncq_fis, write_std_fis, PrdEntry, MAX_PRDT,
};
use crate::blockdriver::ahci::slots::AHCI_MAX_SLOTS;
use crate::replay::{Link, Run};
use vstd::prelude::*;

verus! {

// Registers of a port.
pub const PORT_CLB: u32 = 0x00;

pub const PORT_CLBU: u32 = 0x04;

pub const PORT_FB: u32 = 0x08;

pub const PORT_FBU: u32 = 0x0C;

pub const PORT_IS: u32 = 0x10;

pub const PORT_IE: u32 = 0x14;

pub const PORT_CMD: u32 = 0x18;

pub const PORT_TFD: u32 = 0x20;

pub const PORT_SSTS: u32 = 0x28;

pub const PORT_SCTL: u32 = 0x2C;

pub const PORT_SERR: u32 = 0x30;

pub const PORT_SACT: u32 = 0x34;

pub const PORT_CI: u32 = 0x38;

// Bits of a port's command register.
pub const CMD_ST: u32 = 0x0001;

pub const CMD_SUD: u32 = 0x0002;

pub const CMD_POD: u32 = 0x0004;

pub const CMD_FRE: u32 = 0x0010;

pub const CMD_FR: u32 = 0x4000;

pub const CMD_CR: u32 = 0x8000;

/// The bit by which the disk reports an error.
pub const TFD_ERR: u32 = 0x0001;

pub const ALL_BITS: u32 = 0xFFFF_FFFF;

/// How often a port is looked at until it has stopped.
pub const STOP_POLLS: u32 = 1000;

/// What a page is for.
#[derive(Debug, Clone, Copy, PartialEq, Eq, Structural)]
pub enum Page {
    /// The command list of a port.
    List(u8),
    /// The frames that a port receives. They come in while commands are in flight,
    /// so the page is used for nothing else.
    Received(u8),
    /// What IDENTIFY answers.
    Scratch(u8),
    /// The command table of a slot.
    Table(u8, u8),
}

/// What the driver asks of the machine.
#[derive(Debug, Clone, Copy, PartialEq, Eq, Structural)]
pub enum Action {
    /// Read a register of the controller.
    ReadHba(u32),
    /// Write a register of the controller.
    WriteHba(u32, u32),
    /// Read a register of a port.
    ReadPort(u8, u32),
    /// Write a register of a port.
    WritePort(u8, u32, u32),
    /// Map so many bytes of the controller's registers. The reply is not zero
    /// where that worked.
    MapRegisters(u64),
    /// Allocate a zeroed page. The reply is its physical address plus one, or zero
    /// where there is none.
    AllocPage(Page),
    /// Write the header of a slot in a port's command list: the frame's length, no
    /// count, and the physical address of the command table.
    WriteListHeader(u8, u8, u64),
    /// Register the handler for the controller's interrupt. The reply says whether
    /// that worked.
    RegisterIrq,
    /// Take the handler back.
    UnregisterIrq,
    /// Route an interrupt line, active low, by level. The reply says whether that
    /// worked.
    EnableIrq(u8),
    /// The physical address of a virtual one, plus one; zero where there is none.
    Translate(u64),
    /// Clear the frame and the region list of a slot's command table.
    ClearTable(u8),
    /// Write one word of the frame in a slot's command table.
    WriteFis(u8, u32, u32),
    /// Write one region into the list in a slot's command table.
    WritePrd(u8, u32, PrdEntry),
    /// Write the first word of a slot's header and clear the count behind it.
    WriteHeader(u8, u32),
    /// Let no write be moved across this point.
    Fence,
    /// Write back, and forget, the cache lines of a range of memory.
    FlushCache(u64, u64),
    /// Wait until the slots of the mask have completed, or five seconds have
    /// passed.
    AwaitSlots(u8, u32),
    /// Wait until the port has a link, or a tenth of a second has passed. The reply
    /// says whether it has.
    AwaitLink(u8),
    /// Wait so many milliseconds.
    Sleep(u64),
    /// Read a word of a port's scratch page.
    ReadScratch(u8, u32),
}

/// What can go wrong.
#[derive(Debug, Clone, Copy, PartialEq, Eq, Structural)]
pub enum AhciError {
    TranslateFail,
    PrdtExhausted,
    NotEnoughSlots,
    SlotStillActive,
    CmdError,
    TimedOut,
    ResetTimeout,
    ResetFailed,
    NoMapping,
    HbaResetTimeout,
    NotMemoryMapped,
    OomList,
    OomReceived,
    OomScratch,
    OomTable,
    NoDevice,
}

/// The error in words.
pub fn message(e: AhciError) -> (r: &'static str)
    ensures
        r@ == text_of(e),
{
    match e {
        AhciError::TranslateFail => "PRDT translate fail",
        AhciError::PrdtExhausted => "PRDT entries exhausted",
        AhciError::NotEnoughSlots => "not enough NCQ slots",
        AhciError::SlotStillActive => "AHCI slot still active",
        AhciError::CmdError => "AHCI cmd error",
        AhciError::TimedOut => "AHCI timeout",
        AhciError::ResetTimeout => "port reset timeout",
        AhciError::ResetFailed => "AHCI port reset failed",
        AhciError::NoMapping => "AHCI registers cannot be mapped",
        AhciError::HbaResetTimeout => "AHCI HBA reset timeout",
        AhciError::NotMemoryMapped => "AHCI BAR5 is not memory-mapped",
        AhciError::OomList => "OOM CL",
        AhciError::OomReceived => "OOM received FIS",
        AhciError::OomScratch => "OOM scratch",
        AhciError::OomTable => "OOM CT",
        AhciError::NoDevice => "no device",
    }
}

pub open spec fn text_of(e: AhciError) -> Seq<char> {
    match e {
        AhciError::TranslateFail => "PRDT translate fail"@,
        AhciError::PrdtExhausted => "PRDT entries exhausted"@,
        AhciError::NotEnoughSlots => "not enough NCQ slots"@,
        AhciError::SlotStillActive => "AHCI slot still active"@,
        AhciError::CmdError => "AHCI cmd error"@,
        AhciError::TimedOut => "AHCI timeout"@,
        AhciError::ResetTimeout => "port reset timeout"@,
        AhciError::ResetFailed => "AHCI port reset failed"@,
        AhciError::NoMapping => "AHCI registers cannot be mapped"@,
        AhciError::HbaResetTimeout => "AHCI HBA reset timeout"@,
        AhciError::NotMemoryMapped => "AHCI BAR5 is not memory-mapped"@,
        AhciError::OomList => "OOM CL"@,
        AhciError::OomReceived => "OOM received FIS"@,
        AhciError::OomScratch => "OOM scratch"@,
        AhciError::OomTable => "OOM CT"@,
        AhciError::NoDevice => "no device"@,
    }
}

/// A transfer, by where its memory lies.
#[derive(Debug, Clone, Copy, PartialEq, Eq, Structural)]
pub struct Transfer {
    pub lba: u64,
    pub count: u32,
    /// The address of the memory, or zero for the scratch page.
    pub buf_vaddr: u64,
    pub buf_size: u64,
    pub is_write: bool,
}

/// The bytes that a transfer moves.
pub open spec fn bytes_of(t: Transfer) -> int {
    t.count * 512
}

/// A port that has been set up.
#[derive(Clone, Copy)]
pub struct AhciPort {
    pub port: u8,
    pub scratch_paddr: u64,
    pub max_prdt: usize,
    pub n_slots: u8,
    pub sector_count: u64,
    pub lba48: bool,
    pub ncq: bool,
    pub model: [u8; 40],
    /// The slots in use.
    pub slot_alloc: u32,
}

type Ask = Link<Action>;

/// Writing the words of a frame from word `i` on.
pub open spec fn fis_written(r: Seq<u64>, p: int, tag: u8, words: Seq<u32>, i: int) -> Run<
    Action,
    (),
>
    decreases words.len() - i,
{
    if i >= words.len() {
        Run::Gives((), p)
    } else {
        crate::replay::follow(
            crate::replay::asked(r, p, Action::WriteFis(tag, i as u32, words[i])),
            |v: u64, q: int| fis_written(r, q, tag, words, i + 1),
        )
    }
}

/// The bytes of a region that starts at `va`, where `rem` are left: up to the end
/// of the page.
pub open spec fn chunk_at(va: u64, rem: int) -> int {
    if rem < 4096 - va % 4096 {
        rem
    } else {
        4096 - va % 4096
    }
}

/// Writing the region list for `rem` bytes from `va` on, behind `n` regions: one
/// region for each page that is touched. The result is the number of regions, and
/// the last of them.
pub open spec fn prdt_built(
    r: Seq<u64>,
    p: int,
    tag: u8,
    va: u64,
    rem: int,
    n: int,
    max: int,
    last: PrdEntry,
) -> Run<Action, Result<(usize, PrdEntry), AhciError>>
    decreases max - n,
{
    if rem <= 0 {
        Run::Gives(Ok((n as usize, last)), p)
    } else if n >= max {
        Run::Gives(Err(AhciError::PrdtExhausted), p)
    } else {
        crate::replay::follow(
            crate::replay::asked(r, p, Action::Translate(va)),
            |v: u64, q: int|
                if v == 0 {
                    Run::Gives(Err(AhciError::TranslateFail), q)
                } else {
                    let e = crate::blockdriver::ahci::command::region(
                        ((v - 1) as u64) | (va % 4096),
                        chunk_at(va, rem),
                    );
                    crate::replay::follow(
                        crate::replay::asked(r, q, Action::WritePrd(tag, n as u32, e)),
                        |w: u64, q2: int|
                            prdt_built(
                                r,
                                q2,
                                tag,
                                va.wrapping_add(chunk_at(va, rem) as u64),
                                rem - chunk_at(va, rem),
                                n + 1,
                                max,
                                e,
                            ),
                    )
                },
        )
    }
}

pub open spec fn no_region() -> PrdEntry {
    PrdEntry { dba: 0, dbau: 0, dbc: 0 }
}

impl AhciPort {
    pub open spec fn inv(self) -> bool {
        &&& self.n_slots <= AHCI_MAX_SLOTS
        &&& self.max_prdt <= MAX_PRDT
    }

    /// The frame of a transfer in slot `tag`.
    pub open spec fn frame(self, tag: u8, t: Transfer) -> Seq<u32> {
        let count = (t.count % 0x1_0000) as u16;
        if self.ncq {
            crate::blockdriver::ahci::command::ncq_fis(
                t.lba,
                count,
                tag,
                if t.is_write {
                    0x61
                } else {
                    0x60
                },
            )
        } else if self.lba48 {
            crate::blockdriver::ahci::command::std_fis(
                true,
                t.lba,
                count,
                if t.is_write {
                    0x35
                } else {
                    0x25
                },
            )
        } else {
            crate::blockdriver::ahci::command::std_fis(
                false,
                t.lba,
                count,
                if t.is_write {
                    0xCA
                } else {
                    0xC8
                },
            )
        }
    }

    /// Writing the region list of a transfer: its pages, or the scratch page.
    pub open spec fn regions_written(self, r: Seq<u64>, p: int, tag: u8, t: Transfer) -> Run<
        Action,
        Result<(usize, PrdEntry), AhciError>,
    > {
        if t.buf_vaddr != 0 {
            prdt_built(
                r,
                p,
                tag,
                t.buf_vaddr,
                bytes_of(t),
                0,
                self.max_prdt as int,
                no_region(),
            )
        } else {
            let e = crate::blockdriver::ahci::command::region(self.scratch_paddr, bytes_of(t));
            crate::replay::follow(
                crate::replay::asked(r, p, Action::WritePrd(tag, 0, e)),
                |w: u64, q: int| Run::Gives(Ok((1usize, e)), q),
            )
        }
    }

    /// Preparing a transfer in slot `tag`: the table is cleared, the frame and the
    /// regions are written, an interrupt is asked for behind the last region, and
    /// the header says how many there are.
    pub open spec fn prepared(self, r: Seq<u64>, p: int, tag: u8, t: Transfer) -> Run<
        Action,
        Result<(), AhciError>,
    > {
        crate::replay::follow(
            crate::replay::asked(r, p, Action::ClearTable(tag)),
            |c: u64, q: int|
                crate::replay::follow(
                    fis_written(r, q, tag, self.frame(tag, t), 0),
                    |f: (), q2: int|
                        crate::replay::follow(
                            self.regions_written(r, q2, tag, t),
                            |built: Result<(usize, PrdEntry), AhciError>, q3: int|
                                match built {
                                    Err(e) => Run::Gives(Err(e), q3),
                                    Ok((n, last)) => header_written(r, q3, tag, t.is_write, n, last),
                                },
                        ),
                ),
        )
    }
}

/// Asking for an interrupt behind the last of `n` regions, and writing the header.
pub open spec fn header_written(
    r: Seq<u64>,
    p: int,
    tag: u8,
    is_write: bool,
    n: usize,
    last: PrdEntry,
) -> Run<Action, Result<(), AhciError>> {
    crate::replay::follow(
        crate::replay::asked(
            r,
            p,
            Action::WritePrd(
                tag,
                (n - 1) as u32,
                crate::blockdriver::ahci::command::with_interrupt(last),
            ),
        ),
        |w: u64, q: int|
            crate::replay::follow(
                crate::replay::asked(
                    r,
                    q,
                    Action::WriteHeader(
                        tag,
                        crate::blockdriver::ahci::command::header_word(is_write, n as int),
                    ),
                ),
                |w2: u64, q2: int| Run::Gives(Ok(()), q2),
            ),
    )
}

/// Writes the words of a frame from word `i` on.
pub(crate) fn write_frame(l: &mut Ask, tag: u8, words: &[u32; 5], i: usize) -> (r: Option<()>)
    requires
        old(l).inv(),
        i <= 5,
    ensures
        old(l).went(
            *final(l),
            r,
            fis_written(old(l).replies@, old(l).used as int, tag, words@, i as int),
        ),
    decreases 5 - i,
{
    if i >= 5 {
        return Some(());
    }
    l.ask(Action::WriteFis(tag, i as u32, words[i]))?;
    write_frame(l, tag, words, i + 1)
}

/// Writes the region list for `rem` bytes from `va` on, behind `n` regions.
fn build_prdt(
    l: &mut Ask,
    tag: u8,
    va: u64,
    rem: u64,
    n: usize,
    max: usize,
    last: PrdEntry,
) -> (r: Option<Result<(usize, PrdEntry), AhciError>>)
    requires
        old(l).inv(),
        n <= max <= MAX_PRDT,
        n > 0 || rem > 0,
    ensures
        old(l).went(
            *final(l),
            r,
            prdt_built(
                old(l).replies@,
                old(l).used as int,
                tag,
                va,
                rem as int,
                n as int,
                max as int,
                last,
            ),
        ),
        r is Some && r->0 is Ok ==> 0 < r->0->Ok_0.0 <= MAX_PRDT,
    decreases max - n,
{
    if rem == 0 {
        return Some(Ok((n, last)));
    }
    if n >= max {
        return Some(Err(AhciError::PrdtExhausted));
    }
    let found: u64 = l.ask(Action::Translate(va))?;
    if found == 0 {
        return Some(Err(AhciError::TranslateFail));
    }
    let skip: u64 = va % 4096;
    let chunk: u64 = if rem < 4096 - skip {
        rem
    } else {
        4096 - skip
    };
    let e: PrdEntry = make_region((found - 1) | skip, chunk);
    l.ask(Action::WritePrd(tag, n as u32, e))?;
    build_prdt(l, tag, va.wrapping_add(chunk), rem - chunk, n + 1, max, e)
}

pub(crate) fn write_header(l: &mut Ask, tag: u8, is_write: bool, n: usize, last: PrdEntry) -> (r: Option<
    Result<(), AhciError>,
>)
    requires
        old(l).inv(),
        0 < n <= MAX_PRDT,
    ensures
        old(l).went(
            *final(l),
            r,
            header_written(old(l).replies@, old(l).used as int, tag, is_write, n, last),
        ),
{
    l.ask(Action::WritePrd(tag, (n - 1) as u32, ask_interrupt(last)))?;
    let w: u32 = if is_write {
        64
    } else {
        0
    };
    l.ask(Action::WriteHeader(tag, 5 + w + (n as u32) * 0x1_0000))?;
    Some(Ok(()))
}

impl AhciPort {
    fn write_regions(&self, l: &mut Ask, tag: u8, t: Transfer) -> (r: Option<
        Result<(usize, PrdEntry), AhciError>,
    >)
        requires
            old(l).inv(),
            self.inv(),
            t.count > 0,
        ensures
            old(l).went(
                *final(l),
                r,
                self.regions_written(old(l).replies@, old(l).used as int, tag, t),
            ),
            r is Some && r->0 is Ok ==> 0 < r->0->Ok_0.0 <= MAX_PRDT,
    {
        let bytes: u64 = t.count as u64 * 512;
        if t.buf_vaddr != 0 {
            build_prdt(
                l,
                tag,
                t.buf_vaddr,
                bytes,
                0,
                self.max_prdt,
                PrdEntry { dba: 0, dbau: 0, dbc: 0 },
            )
        } else {
            let e: PrdEntry = make_region(self.scratch_paddr, bytes);
            l.ask(Action::WritePrd(tag, 0, e))?;
            Some(Ok((1, e)))
        }
    }

    fn make_frame(&self, tag: u8, t: Transfer) -> (r: [u32; 5])
        ensures
            r@ == self.frame(tag, t),
    {
        let count: u16 = (t.count % 0x1_0000) as u16;
        if self.ncq {
            write_ncq_fis(
                t.lba,
                count,
                tag,
                if t.is_write {
                    0x61
                } else {
                    0x60
                },
            )
        } else if self.lba48 {
            write_std_fis(
                true,
                t.lba,
                count,
                if t.is_write {
                    0x35
                } else {
                    0x25
                },
            )
        } else {
            write_std_fis(
                false,
                t.lba,
                count,
                if t.is_write {
                    0xCA
                } else {
                    0xC8
                },
            )
        }
    }

    /// Prepares a transfer in slot `tag`.
    pub(crate) fn prepare_cmd(&self, l: &mut Ask, tag: u8, t: Transfer) -> (r: Option<Result<(), AhciError>>)
        requires
            old(l).inv(),
            self.inv(),
            t.count > 0,
        ensures
            old(l).went(
                *final(l),
                r,
                self.prepared(old(l).replies@, old(l).used as int, tag, t),
            ),
    {
        l.ask(Action::ClearTable(tag))?;
        let words: [u32; 5] = self.make_frame(tag, t);
        write_frame(l, tag, &words, 0)?;
        match self.write_regions(l, tag, t)? {
            Err(e) => Some(Err(e)),
            Ok((n, last)) => write_header(l, tag, t.is_write, n, last),
        }
    }
}

/// What the registers say of the slots of `mask` behind a wait.
pub open spec fn slots_outcome(ci: u32, sact: u32, tfd: u32, mask: u32) -> Result<(), AhciError> {
    if ci & mask == 0 && sact & mask == 0 {
        if tfd & TFD_ERR != 0 {
            Err(AhciError::CmdError)
        } else {
            Ok(())
        }
    } else {
        Err(AhciError::TimedOut)
    }
}

/// A register, out of a reply.
pub open spec fn reg(reply: u64) -> u32 {
    (reply % 0x1_0000_0000) as u32
}

/// Waiting for the slots of `mask`.
pub open spec fn slots_awaited(r: Seq<u64>, p: int, port: u8, mask: u32) -> Run<
    Action,
    Result<(), AhciError>,
> {
    crate::replay::follow(
        crate::replay::asked(r, p, Action::AwaitSlots(port, mask)),
        |w: u64, q: int|
            crate::replay::follow(
                crate::replay::asked(r, q, Action::ReadPort(port, PORT_CI)),
                |ci: u64, q2: int|
                    crate::replay::follow(
                        crate::replay::asked(r, q2, Action::ReadPort(port, PORT_SACT)),
                        |sact: u64, q3: int|
                            crate::replay::follow(
                                crate::replay::asked(r, q3, Action::ReadPort(port, PORT_TFD)),
                                |tfd: u64, q4: int|
                                    Run::Gives(
                                        slots_outcome(reg(ci), reg(sact), reg(tfd), mask),
                                        q4,
                                    ),
                            ),
                    ),
            ),
    )
}

/// Whether a slot of `mask` is still in flight. The second register is read only
/// where the first does not tell.
pub open spec fn slots_busy(r: Seq<u64>, p: int, port: u8, mask: u32) -> Run<Action, bool> {
    crate::replay::follow(
        crate::replay::asked(r, p, Action::ReadPort(port, PORT_CI)),
        |ci: u64, q: int|
            if reg(ci) & mask != 0 {
                Run::Gives(true, q)
            } else {
                crate::replay::follow(
                    crate::replay::asked(r, q, Action::ReadPort(port, PORT_SACT)),
                    |sact: u64, q2: int| Run::Gives(reg(sact) & mask != 0, q2),
                )
            },
    )
}

/// Starting the slots of `mask` and waiting for them. A slot that is in flight is
/// never started again.
pub open spec fn batch_submitted(r: Seq<u64>, p: int, port: u8, ncq: bool, mask: u32) -> Run<
    Action,
    Result<(), AhciError>,
> {
    crate::replay::follow(
        slots_busy(r, p, port, mask),
        |busy: bool, q: int|
            if busy {
                Run::Gives(Err(AhciError::SlotStillActive), q)
            } else {
                crate::replay::follow(
                    crate::replay::asked(r, q, Action::Fence),
                    |w: u64, q2: int|
                        crate::replay::follow(
                            queue_marked(r, q2, port, ncq, mask),
                            |w2: (), q3: int|
                                crate::replay::follow(
                                    crate::replay::asked(
                                        r,
                                        q3,
                                        Action::WritePort(port, PORT_CI, mask),
                                    ),
                                    |w3: u64, q4: int| slots_awaited(r, q4, port, mask),
                                ),
                        ),
                )
            },
    )
}

/// Telling the port which slots are queued, where commands are queued.
pub open spec fn queue_marked(r: Seq<u64>, p: int, port: u8, ncq: bool, mask: u32) -> Run<
    Action,
    (),
> {
    if ncq {
        crate::replay::follow(
            crate::replay::asked(r, p, Action::WritePort(port, PORT_SACT, mask)),
            |w: u64, q: int| Run::Gives((), q),
        )
    } else {
        Run::Gives((), p)
    }
}

/// Looking `left` times at most whether a port has stopped.
pub open spec fn port_stopped(r: Seq<u64>, p: int, port: u8, left: nat) -> Run<Action, ()>
    decreases left,
{
    if left == 0 {
        Run::Gives((), p)
    } else {
        crate::replay::follow(
            crate::replay::asked(r, p, Action::ReadPort(port, PORT_CMD)),
            |c: u64, q: int|
                if reg(c) & (CMD_CR | CMD_FR) == 0 {
                    Run::Gives((), q)
                } else {
                    port_stopped(r, q, port, (left - 1) as nat)
                },
        )
    }
}

/// Stopping a port: its engine is switched off and given time to come to rest.
pub open spec fn engine_off(r: Seq<u64>, p: int, port: u8) -> Run<Action, ()> {
    crate::replay::follow(
        crate::replay::asked(r, p, Action::ReadPort(port, PORT_CMD)),
        |c: u64, q: int|
            crate::replay::follow(
                crate::replay::asked(
                    r,
                    q,
                    Action::WritePort(port, PORT_CMD, reg(c) & !(CMD_ST | CMD_FRE)),
                ),
                |w: u64, q2: int| port_stopped(r, q2, port, STOP_POLLS as nat),
            ),
    )
}

/// What a reset of the link may clear: the two addresses and the interrupts.
#[derive(Debug, Clone, Copy, PartialEq, Eq, Structural)]
pub struct Saved {
    pub clb: u32,
    pub clbu: u32,
    pub fb: u32,
    pub fbu: u32,
    pub ie: u32,
}

pub open spec fn registers_saved(r: Seq<u64>, p: int, port: u8) -> Run<Action, Saved> {
    crate::replay::follow(
        crate::replay::asked(r, p, Action::ReadPort(port, PORT_CLB)),
        |clb: u64, q: int|
            crate::replay::follow(
                crate::replay::asked(r, q, Action::ReadPort(port, PORT_CLBU)),
                |clbu: u64, q2: int|
                    crate::replay::follow(
                        crate::replay::asked(r, q2, Action::ReadPort(port, PORT_FB)),
                        |fb: u64, q3: int|
                            crate::replay::follow(
                                crate::replay::asked(r, q3, Action::ReadPort(port, PORT_FBU)),
                                |fbu: u64, q4: int|
                                    crate::replay::follow(
                                        crate::replay::asked(
                                            r,
                                            q4,
                                            Action::ReadPort(port, PORT_IE),
                                        ),
                                        |ie: u64, q5: int|
                                            Run::Gives(
                                                Saved {
                                                    clb: reg(clb),
                                                    clbu: reg(clbu),
                                                    fb: reg(fb),
                                                    fbu: reg(fbu),
                                                    ie: reg(ie),
                                                },
                                                q5,
                                            ),
                                    ),
                            ),
                    ),
            ),
    )
}

/// Resetting the link: whether it came back.
pub open spec fn link_reset(r: Seq<u64>, p: int, port: u8) -> Run<Action, bool> {
    crate::replay::follow(
        crate::replay::asked(r, p, Action::ReadPort(port, PORT_SCTL)),
        |sctl: u64, q: int|
            crate::replay::follow(
                crate::replay::asked(
                    r,
                    q,
                    Action::WritePort(port, PORT_SCTL, (reg(sctl) & !0x0Fu32) | 1),
                ),
                |w: u64, q2: int|
                    crate::replay::follow(
                        crate::replay::asked(r, q2, Action::Sleep(2)),
                        |w2: u64, q3: int|
                            crate::replay::follow(
                                crate::replay::asked(
                                    r,
                                    q3,
                                    Action::WritePort(port, PORT_SCTL, reg(sctl) & !0x0Fu32),
                                ),
                                |w3: u64, q4: int|
                                    crate::replay::follow(
                                        crate::replay::asked(r, q4, Action::AwaitLink(port)),
                                        |up: u64, q5: int|
                                            Run::Gives(crate::replay::is_set(up), q5),
                                    ),
                            ),
                    ),
            ),
    )
}

/// Writing registers of a port, one after the other, from write `i` on.
pub open spec fn port_written(r: Seq<u64>, p: int, port: u8, writes: Seq<(u32, u32)>, i: int) -> Run<
    Action,
    (),
>
    decreases writes.len() - i,
{
    if i >= writes.len() {
        Run::Gives((), p)
    } else {
        crate::replay::follow(
            crate::replay::asked(r, p, Action::WritePort(port, writes[i].0, writes[i].1)),
            |w: u64, q: int| port_written(r, q, port, writes, i + 1),
        )
    }
}

/// What is written to a port whose link came back: what was saved, the flags that
/// are pending, and power.
pub open spec fn revival(s: Saved) -> Seq<(u32, u32)> {
    seq![
        (PORT_CLB, s.clb),
        (PORT_CLBU, s.clbu),
        (PORT_FB, s.fb),
        (PORT_FBU, s.fbu),
        (PORT_SERR, ALL_BITS),
        (PORT_IS, ALL_BITS),
        (PORT_CMD, CMD_SUD | CMD_POD | CMD_FRE),
    ]
}

/// Setting bits of a port's command register.
pub open spec fn command_bits_set(r: Seq<u64>, p: int, port: u8, bits: u32) -> Run<Action, ()> {
    crate::replay::follow(
        crate::replay::asked(r, p, Action::ReadPort(port, PORT_CMD)),
        |c: u64, q: int|
            crate::replay::follow(
                crate::replay::asked(r, q, Action::WritePort(port, PORT_CMD, reg(c) | bits)),
                |w: u64, q2: int| Run::Gives((), q2),
            ),
    )
}

/// Switching a port's interrupts on again, if they were on.
pub open spec fn interrupts_back(r: Seq<u64>, p: int, port: u8, ie: u32) -> Run<Action, ()> {
    if ie != 0 {
        crate::replay::follow(
            crate::replay::asked(r, p, Action::WritePort(port, PORT_IE, ie)),
            |w: u64, q: int| Run::Gives((), q),
        )
    } else {
        Run::Gives((), p)
    }
}

/// Resetting a port, with everything that the reset may clear put back.
pub open spec fn port_was_reset(r: Seq<u64>, p: int, port: u8) -> Run<
    Action,
    Result<(), AhciError>,
> {
    crate::replay::follow(
        engine_off(r, p, port),
        |w: (), q: int|
            crate::replay::follow(
                registers_saved(r, q, port),
                |s: Saved, q2: int|
                    crate::replay::follow(
                        link_reset(r, q2, port),
                        |up: bool, q3: int|
                            if up {
                                port_revived(r, q3, port, s)
                            } else {
                                Run::Gives(Err(AhciError::ResetTimeout), q3)
                            },
                    ),
            ),
    )
}

pub open spec fn port_revived(r: Seq<u64>, p: int, port: u8, s: Saved) -> Run<
    Action,
    Result<(), AhciError>,
> {
    crate::replay::follow(
        port_written(r, p, port, revival(s), 0),
        |w: (), q: int|
            crate::replay::follow(
                command_bits_set(r, q, port, CMD_ST),
                |w2: (), q2: int|
                    crate::replay::follow(
                        interrupts_back(r, q2, port, s.ie),
                        |w3: (), q3: int| Run::Gives(Ok(()), q3),
                    ),
            ),
    )
}

/// Whether the slots of `mask` have completed.
pub fn slots_done(ci: u32, sact: u32, mask: u32) -> (r: bool)
    ensures
        r == (ci & mask == 0 && sact & mask == 0),
{
    ci & mask == 0 && sact & mask == 0
}

pub(crate) fn read_port(l: &mut Ask, port: u8, off: u32) -> (r: Option<u32>)
    requires
        old(l).inv(),
    ensures
        old(l).went(
            *final(l),
            r,
            match crate::replay::asked(
                old(l).replies@,
                old(l).used as int,
                Action::ReadPort(port, off),
            ) {
                Run::Wants(w) => Run::Wants(w),
                Run::Gives(v, pos) => Run::Gives(reg(v), pos),
            },
        ),
{
    let v: u64 = l.ask(Action::ReadPort(port, off))?;
    Some((v % 0x1_0000_0000) as u32)
}

/// Waits for the slots of `mask`.
pub(crate) fn wait_slots(l: &mut Ask, port: u8, mask: u32) -> (r: Option<Result<(), AhciError>>)
    requires
        old(l).inv(),
    ensures
        old(l).went(*final(l), r, slots_awaited(old(l).replies@, old(l).used as int, port, mask)),
{
    l.ask(Action::AwaitSlots(port, mask))?;
    let ci: u32 = read_port(l, port, PORT_CI)?;
    let sact: u32 = read_port(l, port, PORT_SACT)?;
    let tfd: u32 = read_port(l, port, PORT_TFD)?;
    if slots_done(ci, sact, mask) {
        if tfd & TFD_ERR != 0 {
            Some(Err(AhciError::CmdError))
        } else {
            Some(Ok(()))
        }
    } else {
        Some(Err(AhciError::TimedOut))
    }
}

fn any_busy(l: &mut Ask, port: u8, mask: u32) -> (r: Option<bool>)
    requires
        old(l).inv(),
    ensures
        old(l).went(*final(l), r, slots_busy(old(l).replies@, old(l).used as int, port, mask)),
{
    let ci: u32 = read_port(l, port, PORT_CI)?;
    if ci & mask != 0 {
        return Some(true);
    }
    let sact: u32 = read_port(l, port, PORT_SACT)?;
    Some(sact & mask != 0)
}

/// Starts the slots of `mask` and waits for them.
pub(crate) fn submit_batch(l: &mut Ask, port: u8, ncq: bool, mask: u32) -> (r: Option<Result<(), AhciError>>)
    requires
        old(l).inv(),
    ensures
        old(l).went(
            *final(l),
            r,
            batch_submitted(old(l).replies@, old(l).used as int, port, ncq, mask),
        ),
{
    if any_busy(l, port, mask)? {
        return Some(Err(AhciError::SlotStillActive));
    }
    l.ask(Action::Fence)?;
    if ncq {
        l.ask(Action::WritePort(port, PORT_SACT, mask))?;
    }
    l.ask(Action::WritePort(port, PORT_CI, mask))?;
    wait_slots(l, port, mask)
}

fn await_stop(l: &mut Ask, port: u8, left: u32) -> (r: Option<()>)
    requires
        old(l).inv(),
    ensures
        old(l).went(
            *final(l),
            r,
            port_stopped(old(l).replies@, old(l).used as int, port, left as nat),
        ),
    decreases left,
{
    if left == 0 {
        return Some(());
    }
    let c: u32 = read_port(l, port, PORT_CMD)?;
    if c & (CMD_CR | CMD_FR) == 0 {
        Some(())
    } else {
        await_stop(l, port, left - 1)
    }
}

/// Stops a port.
pub(crate) fn stop_engine(l: &mut Ask, port: u8) -> (r: Option<()>)
    requires
        old(l).inv(),
    ensures
        old(l).went(*final(l), r, engine_off(old(l).replies@, old(l).used as int, port)),
{
    let c: u32 = read_port(l, port, PORT_CMD)?;
    l.ask(Action::WritePort(port, PORT_CMD, c & !(CMD_ST | CMD_FRE)))?;
    await_stop(l, port, STOP_POLLS)
}

fn save_registers(l: &mut Ask, port: u8) -> (r: Option<Saved>)
    requires
        old(l).inv(),
    ensures
        old(l).went(*final(l), r, registers_saved(old(l).replies@, old(l).used as int, port)),
{
    let clb: u32 = read_port(l, port, PORT_CLB)?;
    let clbu: u32 = read_port(l, port, PORT_CLBU)?;
    let fb: u32 = read_port(l, port, PORT_FB)?;
    let fbu: u32 = read_port(l, port, PORT_FBU)?;
    let ie: u32 = read_port(l, port, PORT_IE)?;
    Some(Saved { clb, clbu, fb, fbu, ie })
}

fn reset_link(l: &mut Ask, port: u8) -> (r: Option<bool>)
    requires
        old(l).inv(),
    ensures
        old(l).went(*final(l), r, link_reset(old(l).replies@, old(l).used as int, port)),
{
    let sctl: u32 = read_port(l, port, PORT_SCTL)?;
    l.ask(Action::WritePort(port, PORT_SCTL, (sctl & !0x0Fu32) | 1))?;
    l.ask(Action::Sleep(2))?;
    l.ask(Action::WritePort(port, PORT_SCTL, sctl & !0x0Fu32))?;
    l.ask_flag(Action::AwaitLink(port))
}

/// Writes registers of a port from write `i` on.
pub(crate) fn write_ports(l: &mut Ask, port: u8, writes: &[(u32, u32)], i: usize) -> (r: Option<()>)
    requires
        old(l).inv(),
        i <= writes@.len(),
    ensures
        old(l).went(
            *final(l),
            r,
            port_written(old(l).replies@, old(l).used as int, port, writes@, i as int),
        ),
    decreases writes@.len() - i,
{
    if i >= writes.len() {
        return Some(());
    }
    l.ask(Action::WritePort(port, writes[i].0, writes[i].1))?;
    write_ports(l, port, writes, i + 1)
}

/// Sets bits of a port's command register.
pub(crate) fn set_command_bits(l: &mut Ask, port: u8, bits: u32) -> (r: Option<()>)
    requires
        old(l).inv(),
    ensures
        old(l).went(*final(l), r, command_bits_set(old(l).replies@, old(l).used as int, port, bits)),
{
    let c: u32 = read_port(l, port, PORT_CMD)?;
    l.ask(Action::WritePort(port, PORT_CMD, c | bits))?;
    Some(())
}

fn revive_port(l: &mut Ask, port: u8, s: Saved) -> (r: Option<Result<(), AhciError>>)
    requires
        old(l).inv(),
    ensures
        old(l).went(*final(l), r, port_revived(old(l).replies@, old(l).used as int, port, s)),
{
    let writes: [(u32, u32); 7] = [
        (PORT_CLB, s.clb),
        (PORT_CLBU, s.clbu),
        (PORT_FB, s.fb),
        (PORT_FBU, s.fbu),
        (PORT_SERR, ALL_BITS),
        (PORT_IS, ALL_BITS),
        (PORT_CMD, CMD_SUD | CMD_POD | CMD_FRE),
    ];
    assert(writes@ =~= revival(s));
    write_ports(l, port, &writes, 0)?;
    set_command_bits(l, port, CMD_ST)?;
    if s.ie != 0 {
        l.ask(Action::WritePort(port, PORT_IE, s.ie))?;
    }
    Some(Ok(()))
}

/// Resets a port.
pub(crate) fn port_reset(l: &mut Ask, port: u8) -> (r: Option<Result<(), AhciError>>)
    requires
        old(l).inv(),
    ensures
        old(l).went(*final(l), r, port_was_reset(old(l).replies@, old(l).used as int, port)),
{
    stop_engine(l, port)?;
    let s: Saved = save_registers(l, port)?;
    if !reset_link(l, port)? {
        return Some(Err(AhciError::ResetTimeout));
    }
    revive_port(l, port, s)
}

} // verus!
