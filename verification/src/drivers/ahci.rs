//! A plain AHCI driver: one port, one command at a time, polled.
//!
//! Transfers go straight to the caller's memory where its pages can be
//! translated, and through a scratch page otherwise.

use crate::blockdriver::ahci::command::{make_region, parse_identify, PrdEntry, MAX_PRDT};
use crate::blockdriver::ahci::controller::{model_text, PciDevice};
use crate::blockdriver::ahci::port::{
    ALL_BITS, CMD_CR, CMD_FR, CMD_FRE, CMD_POD, CMD_ST, CMD_SUD, PORT_CI, PORT_CLB, PORT_CLBU,
    PORT_CMD, PORT_FB, PORT_FBU, PORT_IE, PORT_IS, PORT_SCTL, PORT_SERR, PORT_SSTS, PORT_TFD,
};
use crate::replay::{Link, Run, Step};
use vstd::prelude::*;

verus! {

pub const PORT_SIG: u32 = 0x24;

/// The bit by which this driver tells that a command failed.
pub const TASK_ERROR: u32 = 0x0100;

/// The signature of a disk.
pub const SIG_DISK: u32 = 0x0000_0101;

/// Sectors that a transfer through the scratch page holds, at most.
pub const SCRATCH_SECTORS: u32 = 8;

/// What the driver asks of the machine. All of it concerns the one port that is in
/// use.
#[derive(Debug, Clone, Copy, PartialEq, Eq, Structural)]
pub enum Action {
    Read(u32),
    Write(u32, u32),
    /// Read a register of the controller.
    ReadHba(u32),
    /// Write a register of the controller.
    WriteHba(u32, u32),
    /// Look at a register of the controller so many times at most, until the bits
    /// are clear.
    PollHbaClear(u32, u32, u32),
    /// Map so many bytes of registers at a physical address.
    MapRegisters(u64, u64),
    /// From now on this port is meant.
    SelectPort(u8),
    /// Look at a register so many times at most, until the bits are clear.
    PollClear(u32, u32, u32),
    /// Look at the link so many times at most, until it is up.
    PollLink(u32),
    /// The physical address of a page, plus one; zero where there is none.
    Translate(u64),
    /// Clear the command list and the command table.
    ClearCommand,
    /// Write a byte of the frame.
    WriteFis(u32, u8),
    /// Write a region into the list.
    WritePrd(u32, PrdEntry),
    /// Write the header: its first word, no count, and where the table lies.
    WriteHeader(u32, u64),
    Fence,
    /// Wait until the command has completed, or five seconds have passed. The reply
    /// says whether it has.
    AwaitCommand,
    /// Wait until the link is up, or a tenth of a second has passed. The reply says
    /// whether it is.
    AwaitLink,
    Sleep(u64),
    /// Copy so many bytes from the caller's memory to the scratch page.
    FillScratch(u64),
    /// Copy so many bytes from the scratch page to the caller's memory.
    DrainScratch(u64),
    /// Allocate a zeroed page: its physical address plus one, or zero.
    AllocPage,
    /// Read a word of the scratch page.
    ReadScratch(u32),
}

/// What can go wrong.
#[derive(Debug, Clone, Copy, PartialEq, Eq, Structural)]
pub enum DiskError {
    TranslateFail,
    PrdtExhausted,
    CmdError,
    TimedOut,
    ResetTimeout,
    BufferTooSmall,
    TooManySectors,
    OomList,
    OomScratch,
    NoDevice,
}

/// A port that has been set up.
#[derive(Clone, Copy)]
pub struct Disk {
    pub cl_paddr: u64,
    pub scratch_paddr: u64,
    pub max_prdt: usize,
    pub sector_count: u64,
    pub lba48: bool,
    pub model: [u8; 40],
}

type Ask = Link<Action>;

/// The ticks that have passed on a timer that counts down from `init` and starts
/// over.
pub fn elapsed_ticks(init: u32, start: u32, curr: u32) -> (r: u32)
    requires
        start <= init,
        curr <= init,
    ensures
        r == if curr <= start {
            start - curr
        } else {
            start + (init - curr)
        },
        r <= init,
        curr + r == start || curr + r == start + init,
{
    if curr <= start {
        start - curr
    } else {
        start + (init - curr)
    }
}

/// Ticks in milliseconds, where `init` ticks make `period` milliseconds. A timer
/// that does not run has no time.
pub fn ticks_to_ms(t: u32, init: u32, period: u32) -> (r: u32)
    ensures
        r == if init == 0 {
            0
        } else {
            (t * period / init as int) % 0x1_0000_0000
        },
{
    if init == 0 {
        return 0;
    }
    proof {
        assert(t * period <= 0xFFFF_FFFF * 0xFFFF_FFFF) by (nonlinear_arith)
            requires
                t <= 0xFFFF_FFFF,
                period <= 0xFFFF_FFFF,
        ;
    }
    ((t as u64 * period as u64 / init as u64) % 0x1_0000_0000) as u32
}

/// Milliseconds in ticks. A timer that does not run is given many.
pub fn ms_to_ticks(ms: u32, init: u32, period: u32) -> (r: u32)
    requires
        period > 0,
    ensures
        r == if init == 0 {
            10_000_000
        } else {
            (ms * init / period as int) % 0x1_0000_0000
        },
{
    if init == 0 {
        return 10_000_000;
    }
    proof {
        assert(ms * init <= 0xFFFF_FFFF * 0xFFFF_FFFF) by (nonlinear_arith)
            requires
                ms <= 0xFFFF_FFFF,
                init <= 0xFFFF_FFFF,
        ;
    }
    ((ms as u64 * init as u64 / period as u64) % 0x1_0000_0000) as u32
}

/// The sixth address register holds an address in memory, of 32 or 64 bits.
pub open spec fn bar_ok(bar5: u32) -> bool {
    bar5 & 1 == 0 && (bar5 & 0x06 == 0 || bar5 & 0x06 == 4)
}

/// The address in the sixth address register, with its upper half in the fifth
/// where it has 64 bits.
pub open spec fn bar_base(bar4: u32, bar5: u32) -> u64 {
    if bar5 & 0x06 == 0 {
        (bar5 & 0xFFFF_FFF0) as u64
    } else {
        ((bar5 as u64) & 0xFFFF_FFF0) | ((bar4 as u64) << 32)
    }
}

/// Where the controller's registers lie, and whether that can be told.
pub fn bar5_addr(bars: [u32; 6]) -> (r: (u64, bool))
    ensures
        r == (if bar_ok(bars@[5]) {
            (bar_base(bars@[4], bars@[5]), true)
        } else {
            (0u64, false)
        }),
{
    if bars[5] & 1 != 0 {
        return (0, false);
    }
    match bars[5] & 0x06 {
        0 => ((bars[5] & 0xFFFF_FFF0) as u64, true),
        4 => (((bars[5] as u64) & 0xFFFF_FFF0) | ((bars[4] as u64) << 32), true),
        _ => (0, false),
    }
}

/// The first AHCI controller on the bus.
pub open spec fn first_controller(devs: Seq<PciDevice>) -> Option<int>
    decreases devs.len(),
{
    if devs.len() == 0 {
        None
    } else {
        match first_controller(devs.drop_last()) {
            Some(i) => Some(i),
            None => if crate::blockdriver::ahci::controller::is_ahci(devs.last()) {
                Some(devs.len() - 1)
            } else {
                None
            },
        }
    }
}

/// Finds the first AHCI controller on the bus.
pub fn find_controller(devs: &Vec<PciDevice>) -> (r: Option<usize>)
    ensures
        match r {
            Some(i) => first_controller(devs@) == Some(i as int),
            None => first_controller(devs@) is None,
        },
{
    let mut i: usize = 0;
    assert(devs@.take(0) =~= Seq::<PciDevice>::empty());
    while i < devs.len()
        invariant
            i <= devs@.len(),
            first_controller(devs@.take(i as int)) is None,
        decreases devs@.len() - i,
    {
        assert(devs@.take(i + 1).drop_last() =~= devs@.take(i as int));
        if devs[i].class == 0x01 && devs[i].subclass == 0x06 && devs[i].prog_if == 0x01 {
            proof {
                lemma_first_controller(devs@, i + 1);
            }
            return Some(i);
        }
        i = i + 1;
    }
    assert(devs@.take(i as int) =~= devs@);
    None
}

/// What is found among the first `n` devices is found among all.
proof fn lemma_first_controller(devs: Seq<PciDevice>, n: int)
    requires
        0 <= n <= devs.len(),
        first_controller(devs.take(n)) is Some,
    ensures
        first_controller(devs) == first_controller(devs.take(n)),
    decreases devs.len() - n,
{
    if n < devs.len() {
        assert(devs.take(n + 1).drop_last() =~= devs.take(n));
        lemma_first_controller(devs, n + 1);
    } else {
        assert(devs.take(n) =~= devs);
    }
}

/// The bytes of a frame.
pub open spec fn frame(lba48: bool, lba: u64, count: u32, cmd: u8) -> Seq<u8> {
    seq![
        0x27u8,
        0x80u8,
        cmd,
        0u8,
        (lba % 256) as u8,
        (lba / 256 % 256) as u8,
        (lba / 0x1_0000 % 256) as u8,
        if lba48 {
            0x40u8
        } else {
            0xE0u8
        },
        (lba / 0x100_0000 % 256) as u8,
        if lba48 {
            (lba / 0x1_0000_0000 % 256) as u8
        } else {
            0u8
        },
        0u8,
        (count % 256) as u8,
        if lba48 {
            (count / 256 % 256) as u8
        } else {
            0u8
        },
        0u8,
        0u8,
        0u8,
        0u8,
        0u8,
        0u8,
        0u8,
    ]
}

/// The bytes of a frame.
pub fn make_fis(lba48: bool, lba: u64, count: u32, cmd: u8) -> (r: [u8; 20])
    ensures
        r@ == frame(lba48, lba, count, cmd),
{
    let dev: u8 = if lba48 {
        0x40
    } else {
        0xE0
    };
    let high: u8 = if lba48 {
        (lba / 0x1_0000_0000 % 256) as u8
    } else {
        0
    };
    let count_high: u8 = if lba48 {
        (count / 256 % 256) as u8
    } else {
        0
    };
    let r: [u8; 20] = [
        0x27,
        0x80,
        cmd,
        0,
        (lba % 256) as u8,
        (lba / 256 % 256) as u8,
        (lba / 0x1_0000 % 256) as u8,
        dev,
        (lba / 0x100_0000 % 256) as u8,
        high,
        0,
        (count % 256) as u8,
        count_high,
        0,
        0,
        0,
        0,
        0,
        0,
        0,
    ];
    assert(r@ =~= frame(lba48, lba, count, cmd));
    r
}

/// Writing the bytes of a frame from byte `i` on.
pub open spec fn fis_written(r: Seq<u64>, p: int, bytes: Seq<u8>, i: int) -> Run<Action, ()>
    decreases bytes.len() - i,
{
    if i >= bytes.len() {
        Run::Gives((), p)
    } else {
        crate::replay::follow(
            crate::replay::asked(r, p, Action::WriteFis(i as u32, bytes[i])),
            |w: u64, q: int| fis_written(r, q, bytes, i + 1),
        )
    }
}

/// Writing the region list for `rem` bytes from `va` on, behind `n` regions: the
/// number of regions.
pub open spec fn prdt_built(r: Seq<u64>, p: int, va: u64, rem: int, n: int, max: int) -> Run<
    Action,
    Result<usize, DiskError>,
>
    decreases max - n,
{
    if rem <= 0 {
        Run::Gives(Ok(n as usize), p)
    } else if n >= max {
        Run::Gives(Err(DiskError::PrdtExhausted), p)
    } else {
        crate::replay::follow(
            crate::replay::asked(r, p, Action::Translate((va - va % 4096) as u64)),
            |v: u64, q: int|
                if v == 0 {
                    Run::Gives(Err(DiskError::TranslateFail), q)
                } else {
                    let len = crate::blockdriver::ahci::port::chunk_at(va, rem);
                    crate::replay::follow(
                        crate::replay::asked(
                            r,
                            q,
                            Action::WritePrd(
                                n as u32,
                                crate::blockdriver::ahci::command::region(
                                    ((v - 1) as u64) | (va % 4096),
                                    len,
                                ),
                            ),
                        ),
                        |w: u64, q2: int|
                            prdt_built(r, q2, va.wrapping_add(len as u64), rem - len, n + 1, max),
                    )
                },
        )
    }
}

fn write_fis(l: &mut Ask, bytes: &[u8; 20], i: usize) -> (r: Option<()>)
    requires
        old(l).inv(),
        i <= 20,
    ensures
        old(l).went(
            *final(l),
            r,
            fis_written(old(l).replies@, old(l).used as int, bytes@, i as int),
        ),
    decreases 20 - i,
{
    if i >= 20 {
        return Some(());
    }
    l.ask(Action::WriteFis(i as u32, bytes[i]))?;
    write_fis(l, bytes, i + 1)
}

/// Writes the region list for `rem` bytes from `va` on, behind `n` regions.
fn build_prdt(l: &mut Ask, va: u64, rem: u64, n: usize, max: usize) -> (r: Option<
    Result<usize, DiskError>,
>)
    requires
        old(l).inv(),
        n <= max <= MAX_PRDT,
    ensures
        old(l).went(
            *final(l),
            r,
            prdt_built(
                old(l).replies@,
                old(l).used as int,
                va,
                rem as int,
                n as int,
                max as int,
            ),
        ),
        r is Some && r->0 is Ok ==> r->0->Ok_0 <= MAX_PRDT,
    decreases max - n,
{
    if rem == 0 {
        return Some(Ok(n));
    }
    if n >= max {
        return Some(Err(DiskError::PrdtExhausted));
    }
    let skip: u64 = va % 4096;
    let found: u64 = l.ask(Action::Translate(va - skip))?;
    if found == 0 {
        return Some(Err(DiskError::TranslateFail));
    }
    let chunk: u64 = if rem < 4096 - skip {
        rem
    } else {
        4096 - skip
    };
    l.ask(Action::WritePrd(n as u32, make_region((found - 1) | skip, chunk)))?;
    build_prdt(l, va.wrapping_add(chunk), rem - chunk, n + 1, max)
}

/// A register, out of a reply.
pub open spec fn reg(reply: u64) -> u32 {
    (reply % 0x1_0000_0000) as u32
}

/// Waiting for the command.
pub open spec fn command_awaited(r: Seq<u64>, p: int) -> Run<Action, Result<(), DiskError>> {
    crate::replay::follow(
        crate::replay::asked(r, p, Action::AwaitCommand),
        |done: u64, q: int|
            if crate::replay::is_set(done) {
                crate::replay::follow(
                    crate::replay::asked(r, q, Action::Read(PORT_TFD)),
                    |tfd: u64, q2: int|
                        Run::Gives(
                            if reg(tfd) & TASK_ERROR != 0 {
                                Err(DiskError::CmdError)
                            } else {
                                Ok(())
                            },
                            q2,
                        ),
                )
            } else {
                Run::Gives(Err(DiskError::TimedOut), q)
            },
    )
}

/// Stopping the port's engine.
pub open spec fn engine_off(r: Seq<u64>, p: int) -> Run<Action, ()> {
    crate::replay::follow(
        crate::replay::asked(r, p, Action::Read(PORT_CMD)),
        |c: u64, q: int|
            crate::replay::follow(
                crate::replay::asked(
                    r,
                    q,
                    Action::Write(PORT_CMD, reg(c) & !(CMD_ST | CMD_FRE)),
                ),
                |w: u64, q2: int|
                    crate::replay::follow(
                        crate::replay::asked(
                            r,
                            q2,
                            Action::PollClear(PORT_CMD, CMD_CR | CMD_FR, 1000),
                        ),
                        |w2: u64, q3: int| Run::Gives((), q3),
                    ),
            ),
    )
}

/// Writing registers, one after the other, from write `i` on.
pub open spec fn registers_written(r: Seq<u64>, p: int, writes: Seq<(u32, u32)>, i: int) -> Run<
    Action,
    (),
>
    decreases writes.len() - i,
{
    if i >= writes.len() {
        Run::Gives((), p)
    } else {
        crate::replay::follow(
            crate::replay::asked(r, p, Action::Write(writes[i].0, writes[i].1)),
            |w: u64, q: int| registers_written(r, q, writes, i + 1),
        )
    }
}

/// Resetting the link: whether it came back.
pub open spec fn link_reset(r: Seq<u64>, p: int) -> Run<Action, bool> {
    crate::replay::follow(
        crate::replay::asked(r, p, Action::Read(PORT_SCTL)),
        |sctl: u64, q: int|
            crate::replay::follow(
                crate::replay::asked(
                    r,
                    q,
                    Action::Write(PORT_SCTL, (reg(sctl) & !0x0Fu32) | 1),
                ),
                |w: u64, q2: int|
                    crate::replay::follow(
                        crate::replay::asked(r, q2, Action::Sleep(2)),
                        |w2: u64, q3: int|
                            crate::replay::follow(
                                crate::replay::asked(
                                    r,
                                    q3,
                                    Action::Write(PORT_SCTL, reg(sctl) & !0x0Fu32),
                                ),
                                |w3: u64, q4: int|
                                    crate::replay::follow(
                                        crate::replay::asked(r, q4, Action::AwaitLink),
                                        |up: u64, q5: int|
                                            Run::Gives(crate::replay::is_set(up), q5),
                                    ),
                            ),
                    ),
            ),
    )
}

/// What is written once the link is back.
pub open spec fn revival() -> Seq<(u32, u32)> {
    seq![(PORT_SERR, ALL_BITS), (PORT_IS, ALL_BITS), (PORT_CMD, CMD_FRE | CMD_ST)]
}

/// Resetting the port.
pub open spec fn port_was_reset(r: Seq<u64>, p: int) -> Run<Action, Result<(), DiskError>> {
    crate::replay::follow(
        engine_off(r, p),
        |w: (), q: int|
            crate::replay::follow(
                link_reset(r, q),
                |up: bool, q2: int|
                    if up {
                        crate::replay::follow(
                            registers_written(r, q2, revival(), 0),
                            |w2: (), q3: int| Run::Gives(Ok(()), q3),
                        )
                    } else {
                        Run::Gives(Err(DiskError::ResetTimeout), q2)
                    },
            ),
    )
}

/// A transfer of `count` sectors from `lba` on, from or to the memory at
/// `buf_vaddr`, or the scratch page where that is zero.
#[derive(Debug, Clone, Copy, PartialEq, Eq, Structural)]
pub struct Command {
    pub lba: u64,
    pub count: u32,
    pub buf_vaddr: u64,
    pub is_write: bool,
}

impl Disk {
    pub open spec fn inv(self) -> bool {
        self.max_prdt <= MAX_PRDT
    }

    /// The region list of a command: the number of regions.
    pub open spec fn regions_written(self, r: Seq<u64>, p: int, c: Command) -> Run<
        Action,
        Result<usize, DiskError>,
    > {
        if c.buf_vaddr != 0 {
            prdt_built(r, p, c.buf_vaddr, c.count * 512, 0, self.max_prdt as int)
        } else {
            crate::replay::follow(
                crate::replay::asked(
                    r,
                    p,
                    Action::WritePrd(
                        0,
                        crate::blockdriver::ahci::command::region(
                            self.scratch_paddr,
                            c.count * 512,
                        ),
                    ),
                ),
                |w: u64, q: int| Run::Gives(Ok(1usize), q),
            )
        }
    }

    /// Building a command, starting it and waiting for it.
    pub open spec fn command_run(self, r: Seq<u64>, p: int, c: Command) -> Run<
        Action,
        Result<(), DiskError>,
    > {
        crate::replay::follow(
            crate::replay::asked(r, p, Action::Write(PORT_IS, ALL_BITS)),
            |w: u64, q: int|
                crate::replay::follow(
                    crate::replay::asked(r, q, Action::ClearCommand),
                    |w2: u64, q2: int|
                        crate::replay::follow(
                            fis_written(
                                r,
                                q2,
                                frame(
                                    self.lba48,
                                    c.lba,
                                    c.count,
                                    if c.is_write {
                                        0x35
                                    } else {
                                        0x25
                                    },
                                ),
                                0,
                            ),
                            |w3: (), q3: int|
                                crate::replay::follow(
                                    self.regions_written(r, q3, c),
                                    |built: Result<usize, DiskError>, q4: int|
                                        match built {
                                            Err(e) => Run::Gives(Err(e), q4),
                                            Ok(n) => started(r, q4, self.cl_paddr, c.is_write, n),
                                        },
                                ),
                        ),
                ),
        )
    }

    /// A command, and once more behind a reset of the port where it does not
    /// succeed. An error in building it counts, too, the second time.
    pub open spec fn issued(self, r: Seq<u64>, p: int, c: Command) -> Run<
        Action,
        Result<(), DiskError>,
    > {
        crate::replay::follow(
            crate::replay::asked(r, p, Action::PollClear(PORT_CI, 1, 100_000)),
            |w: u64, q: int|
                crate::replay::follow(
                    self.command_run(r, q, c),
                    |res: Result<(), DiskError>, q2: int|
                        match res {
                            Ok(_) => Run::Gives(Ok(()), q2),
                            Err(e) => if e == DiskError::TranslateFail || e
                                == DiskError::PrdtExhausted {
                                Run::Gives(Err(e), q2)
                            } else {
                                crate::replay::follow(
                                    port_was_reset(r, q2),
                                    |back: Result<(), DiskError>, q3: int|
                                        match back {
                                            Err(e2) => Run::Gives(Err(e2), q3),
                                            Ok(_) => self.command_run(r, q3, c),
                                        },
                                )
                            },
                        },
                ),
        )
    }

    /// A read: straight into the caller's memory, or, where that does not succeed
    /// and the scratch page is large enough, through it.
    pub open spec fn sectors_read(
        self,
        r: Seq<u64>,
        lba: u64,
        count: u32,
        buf_vaddr: u64,
        buf_len: u64,
    ) -> Run<Action, Result<(), DiskError>> {
        if buf_len < count * 512 {
            Run::Gives(Err(DiskError::BufferTooSmall), 0)
        } else {
            crate::replay::follow(
                self.issued(r, 0, Command { lba, count, buf_vaddr, is_write: false }),
                |res: Result<(), DiskError>, q: int|
                    if res is Ok {
                        Run::Gives(Ok(()), q)
                    } else if count > SCRATCH_SECTORS {
                        Run::Gives(Err(DiskError::TooManySectors), q)
                    } else {
                        crate::replay::follow(
                            self.issued(
                                r,
                                q,
                                Command { lba, count, buf_vaddr: 0, is_write: false },
                            ),
                            |res2: Result<(), DiskError>, q2: int|
                                match res2 {
                                    Err(e) => Run::Gives(Err(e), q2),
                                    Ok(_) => crate::replay::follow(
                                        crate::replay::asked(
                                            r,
                                            q2,
                                            Action::DrainScratch((count * 512) as u64),
                                        ),
                                        |w: u64, q3: int| Run::Gives(Ok(()), q3),
                                    ),
                                },
                        )
                    },
            )
        }
    }

    /// A write, likewise.
    pub open spec fn sectors_written(
        self,
        r: Seq<u64>,
        lba: u64,
        count: u32,
        buf_vaddr: u64,
        buf_len: u64,
    ) -> Run<Action, Result<(), DiskError>> {
        if buf_len < count * 512 {
            Run::Gives(Err(DiskError::BufferTooSmall), 0)
        } else {
            crate::replay::follow(
                self.issued(r, 0, Command { lba, count, buf_vaddr, is_write: true }),
                |res: Result<(), DiskError>, q: int|
                    if res is Ok {
                        Run::Gives(Ok(()), q)
                    } else if count > SCRATCH_SECTORS {
                        Run::Gives(Err(DiskError::TooManySectors), q)
                    } else {
                        crate::replay::follow(
                            crate::replay::asked(r, q, Action::FillScratch((count * 512) as u64)),
                            |w: u64, q2: int|
                                self.issued(
                                    r,
                                    q2,
                                    Command { lba, count, buf_vaddr: 0, is_write: true },
                                ),
                        )
                    },
            )
        }
    }
}

/// Writing the header of a command with `n` regions, starting it and waiting for
/// it.
pub open spec fn started(r: Seq<u64>, p: int, cl_paddr: u64, is_write: bool, n: usize) -> Run<
    Action,
    Result<(), DiskError>,
> {
    crate::replay::follow(
        crate::replay::asked(
            r,
            p,
            Action::WriteHeader(
                (5 + (if is_write {
                    128int
                } else {
                    0
                }) + n * 0x1_0000) as u32,
                cl_paddr.wrapping_add(0x100),
            ),
        ),
        |w: u64, q: int|
            crate::replay::follow(
                crate::replay::asked(r, q, Action::Fence),
                |w2: u64, q2: int|
                    crate::replay::follow(
                        crate::replay::asked(r, q2, Action::Write(PORT_CI, 1)),
                        |w3: u64, q3: int| command_awaited(r, q3),
                    ),
            ),
    )
}

fn read_reg(l: &mut Ask, off: u32) -> (r: Option<u32>)
    requires
        old(l).inv(),
    ensures
        old(l).went(
            *final(l),
            r,
            match crate::replay::asked(old(l).replies@, old(l).used as int, Action::Read(off)) {
                Run::Wants(w) => Run::Wants(w),
                Run::Gives(v, pos) => Run::Gives(reg(v), pos),
            },
        ),
{
    let v: u64 = l.ask(Action::Read(off))?;
    Some((v % 0x1_0000_0000) as u32)
}

fn wait_slot(l: &mut Ask) -> (r: Option<Result<(), DiskError>>)
    requires
        old(l).inv(),
    ensures
        old(l).went(*final(l), r, command_awaited(old(l).replies@, old(l).used as int)),
{
    if !l.ask_flag(Action::AwaitCommand)? {
        return Some(Err(DiskError::TimedOut));
    }
    let tfd: u32 = read_reg(l, PORT_TFD)?;
    if tfd & TASK_ERROR != 0 {
        Some(Err(DiskError::CmdError))
    } else {
        Some(Ok(()))
    }
}

fn stop_engine(l: &mut Ask) -> (r: Option<()>)
    requires
        old(l).inv(),
    ensures
        old(l).went(*final(l), r, engine_off(old(l).replies@, old(l).used as int)),
{
    let c: u32 = read_reg(l, PORT_CMD)?;
    l.ask(Action::Write(PORT_CMD, c & !(CMD_ST | CMD_FRE)))?;
    l.ask(Action::PollClear(PORT_CMD, CMD_CR | CMD_FR, 1000))?;
    Some(())
}

fn write_registers(l: &mut Ask, writes: &[(u32, u32)], i: usize) -> (r: Option<()>)
    requires
        old(l).inv(),
        i <= writes@.len(),
    ensures
        old(l).went(
            *final(l),
            r,
            registers_written(old(l).replies@, old(l).used as int, writes@, i as int),
        ),
    decreases writes@.len() - i,
{
    if i >= writes.len() {
        return Some(());
    }
    l.ask(Action::Write(writes[i].0, writes[i].1))?;
    write_registers(l, writes, i + 1)
}

fn reset_link(l: &mut Ask) -> (r: Option<bool>)
    requires
        old(l).inv(),
    ensures
        old(l).went(*final(l), r, link_reset(old(l).replies@, old(l).used as int)),
{
    let sctl: u32 = read_reg(l, PORT_SCTL)?;
    l.ask(Action::Write(PORT_SCTL, (sctl & !0x0Fu32) | 1))?;
    l.ask(Action::Sleep(2))?;
    l.ask(Action::Write(PORT_SCTL, sctl & !0x0Fu32))?;
    l.ask_flag(Action::AwaitLink)
}

/// Resets the port.
fn port_reset(l: &mut Ask) -> (r: Option<Result<(), DiskError>>)
    requires
        old(l).inv(),
    ensures
        old(l).went(*final(l), r, port_was_reset(old(l).replies@, old(l).used as int)),
{
    stop_engine(l)?;
    if !reset_link(l)? {
        return Some(Err(DiskError::ResetTimeout));
    }
    let writes: [(u32, u32); 3] = [
        (PORT_SERR, ALL_BITS),
        (PORT_IS, ALL_BITS),
        (PORT_CMD, CMD_FRE | CMD_ST),
    ];
    assert(writes@ =~= revival());
    write_registers(l, &writes, 0)?;
    Some(Ok(()))
}

fn start_command(l: &mut Ask, cl_paddr: u64, is_write: bool, n: usize) -> (r: Option<
    Result<(), DiskError>,
>)
    requires
        old(l).inv(),
        n <= MAX_PRDT,
    ensures
        old(l).went(
            *final(l),
            r,
            started(old(l).replies@, old(l).used as int, cl_paddr, is_write, n),
        ),
{
    let w: u32 = if is_write {
        128
    } else {
        0
    };
    l.ask(Action::WriteHeader(5 + w + (n as u32) * 0x1_0000, cl_paddr.wrapping_add(0x100)))?;
    l.ask(Action::Fence)?;
    l.ask(Action::Write(PORT_CI, 1))?;
    wait_slot(l)
}

impl Disk {
    fn write_regions(&self, l: &mut Ask, c: Command) -> (r: Option<Result<usize, DiskError>>)
        requires
            old(l).inv(),
            self.inv(),
            c.count > 0,
        ensures
            old(l).went(
                *final(l),
                r,
                self.regions_written(old(l).replies@, old(l).used as int, c),
            ),
            r is Some && r->0 is Ok ==> r->0->Ok_0 <= MAX_PRDT,
    {
        let size: u64 = c.count as u64 * 512;
        if c.buf_vaddr != 0 {
            build_prdt(l, c.buf_vaddr, size, 0, self.max_prdt)
        } else {
            l.ask(Action::WritePrd(0, make_region(self.scratch_paddr, size)))?;
            Some(Ok(1))
        }
    }

    fn run_command(&self, l: &mut Ask, c: Command) -> (r: Option<Result<(), DiskError>>)
        requires
            old(l).inv(),
            self.inv(),
            c.count > 0,
        ensures
            old(l).went(*final(l), r, self.command_run(old(l).replies@, old(l).used as int, c)),
    {
        l.ask(Action::Write(PORT_IS, ALL_BITS))?;
        l.ask(Action::ClearCommand)?;
        let bytes: [u8; 20] = make_fis(
            self.lba48,
            c.lba,
            c.count,
            if c.is_write {
                0x35
            } else {
                0x25
            },
        );
        write_fis(l, &bytes, 0)?;
        match self.write_regions(l, c)? {
            Err(e) => Some(Err(e)),
            Ok(n) => start_command(l, self.cl_paddr, c.is_write, n),
        }
    }

    /// Runs a command, and once more behind a reset where it does not succeed.
    fn issue_cmd(&self, l: &mut Ask, c: Command) -> (r: Option<Result<(), DiskError>>)
        requires
            old(l).inv(),
            self.inv(),
            c.count > 0,
        ensures
            old(l).went(*final(l), r, self.issued(old(l).replies@, old(l).used as int, c)),
    {
        l.ask(Action::PollClear(PORT_CI, 1, 100_000))?;
        match self.run_command(l, c)? {
            Ok(()) => Some(Ok(())),
            Err(e) => {
                if e == DiskError::TranslateFail || e == DiskError::PrdtExhausted {
                    return Some(Err(e));
                }
                match port_reset(l)? {
                    Err(e2) => Some(Err(e2)),
                    Ok(()) => self.run_command(l, c),
                }
            },
        }
    }

    fn run_read(&self, l: &mut Ask, lba: u64, count: u32, buf_vaddr: u64, buf_len: u64) -> (r: Option<
        Result<(), DiskError>,
    >)
        requires
            old(l).inv(),
            old(l).used == 0,
            self.inv(),
            count > 0,
        ensures
            old(l).went(
                *final(l),
                r,
                self.sectors_read(old(l).replies@, lba, count, buf_vaddr, buf_len),
            ),
    {
        let bytes: u64 = count as u64 * 512;
        if buf_len < bytes {
            return Some(Err(DiskError::BufferTooSmall));
        }
        if self.issue_cmd(l, Command { lba, count, buf_vaddr, is_write: false })?.is_ok() {
            return Some(Ok(()));
        }
        if count > SCRATCH_SECTORS {
            return Some(Err(DiskError::TooManySectors));
        }
        match self.issue_cmd(l, Command { lba, count, buf_vaddr: 0, is_write: false })? {
            Err(e) => Some(Err(e)),
            Ok(()) => {
                l.ask(Action::DrainScratch(bytes))?;
                Some(Ok(()))
            },
        }
    }

    fn run_write(&self, l: &mut Ask, lba: u64, count: u32, buf_vaddr: u64, buf_len: u64) -> (r:
        Option<Result<(), DiskError>>)
        requires
            old(l).inv(),
            old(l).used == 0,
            self.inv(),
            count > 0,
        ensures
            old(l).went(
                *final(l),
                r,
                self.sectors_written(old(l).replies@, lba, count, buf_vaddr, buf_len),
            ),
    {
        let bytes: u64 = count as u64 * 512;
        if buf_len < bytes {
            return Some(Err(DiskError::BufferTooSmall));
        }
        if self.issue_cmd(l, Command { lba, count, buf_vaddr, is_write: true })?.is_ok() {
            return Some(Ok(()));
        }
        if count > SCRATCH_SECTORS {
            return Some(Err(DiskError::TooManySectors));
        }
        l.ask(Action::FillScratch(bytes))?;
        self.issue_cmd(l, Command { lba, count, buf_vaddr: 0, is_write: true })
    }

    /// Reads sectors into the memory at `buf_vaddr`.
    pub fn read_sectors(
        &self,
        replies: Vec<u64>,
        lba: u64,
        count: u32,
        buf_vaddr: u64,
        buf_len: u64,
    ) -> (r: Step<Action, Result<(), DiskError>>)
        requires
            self.inv(),
            count > 0,
        ensures
            r == crate::replay::told(
                self.sectors_read(replies@, lba, count, buf_vaddr, buf_len),
            ),
    {
        let mut l = Link::start(replies);
        let done: Option<Result<(), DiskError>> = self.run_read(
            &mut l,
            lba,
            count,
            buf_vaddr,
            buf_len,
        );
        l.finish(done)
    }

    /// Writes sectors from the memory at `buf_vaddr`.
    pub fn write_sectors(
        &self,
        replies: Vec<u64>,
        lba: u64,
        count: u32,
        buf_vaddr: u64,
        buf_len: u64,
    ) -> (r: Step<Action, Result<(), DiskError>>)
        requires
            self.inv(),
            count > 0,
        ensures
            r == crate::replay::told(
                self.sectors_written(replies@, lba, count, buf_vaddr, buf_len),
            ),
    {
        let mut l = Link::start(replies);
        let done: Option<Result<(), DiskError>> = self.run_write(
            &mut l,
            lba,
            count,
            buf_vaddr,
            buf_len,
        );
        l.finish(done)
    }
}

/// What is known of a disk that was set up.
#[verifier::ext_equal]
pub struct DiskView {
    pub cl_paddr: u64,
    pub scratch_paddr: u64,
    pub max_prdt: usize,
    pub sector_count: u64,
    pub lba48: bool,
    pub model: Seq<u8>,
}

impl View for Disk {
    type V = DiskView;

    open spec fn view(&self) -> DiskView {
        DiskView {
            cl_paddr: self.cl_paddr,
            scratch_paddr: self.scratch_paddr,
            max_prdt: self.max_prdt,
            sector_count: self.sector_count,
            lba48: self.lba48,
            model: self.model@,
        }
    }
}

/// Reading the 256 words of the scratch page.
pub open spec fn scratch_read(r: Seq<u64>, p: int) -> Run<Action, Seq<u16>> {
    if p + 256 <= r.len() {
        Run::Gives(Seq::new(256, |i: int| (r[p + i] % 0x1_0000) as u16), p + 256)
    } else {
        Run::Wants(Action::ReadScratch((r.len() - p) as u32))
    }
}

/// Sending IDENTIFY, its answer going to the scratch page.
pub open spec fn identify_sent(r: Seq<u64>, p: int, cl: u64, scratch: u64) -> Run<
    Action,
    Result<(), DiskError>,
> {
    crate::replay::follow(
        crate::replay::asked(r, p, Action::ClearCommand),
        |w: u64, q: int|
            crate::replay::follow(
                fis_written(r, q, frame(false, 0, 0, 0xEC), 0),
                |w2: (), q2: int|
                    crate::replay::follow(
                        crate::replay::asked(
                            r,
                            q2,
                            Action::WritePrd(
                                0,
                                crate::blockdriver::ahci::command::region(scratch, 512),
                            ),
                        ),
                        |w3: u64, q3: int| started(r, q3, cl, false, 1),
                    ),
            ),
    )
}

/// The disk that the answer to IDENTIFY describes.
pub open spec fn disk_of(cl: u64, scratch: u64, max_prdt: usize, words: Seq<u16>) -> DiskView {
    DiskView {
        cl_paddr: cl,
        scratch_paddr: scratch,
        max_prdt,
        sector_count: crate::blockdriver::ahci::command::sectors_of(words) as u64,
        lba48: words[83] & 0x0400 != 0,
        model: crate::blockdriver::ahci::command::zero_padded(
            crate::blockdriver::ahci::command::model_bytes(words),
        ),
    }
}

/// Asking a disk who it is.
pub open spec fn disk_identified(r: Seq<u64>, p: int, cl: u64, scratch: u64, max_prdt: usize) -> Run<
    Action,
    Result<DiskView, DiskError>,
> {
    crate::replay::follow(
        identify_sent(r, p, cl, scratch),
        |res: Result<(), DiskError>, q: int|
            match res {
                Err(e) => Run::Gives(Err(e), q),
                Ok(_) => crate::replay::follow(
                    scratch_read(r, q),
                    |words: Seq<u16>, q2: int|
                        Run::Gives(Ok(disk_of(cl, scratch, max_prdt, words)), q2),
                ),
            },
    )
}

/// What is written to a port before it starts.
pub open spec fn programming(cl: u64, scratch: u64) -> Seq<(u32, u32)> {
    seq![
        (PORT_CLB, (cl % 0x1_0000_0000) as u32),
        (PORT_CLBU, (cl / 0x1_0000_0000) as u32),
        (PORT_FB, (scratch % 0x1_0000_0000) as u32),
        (PORT_FBU, (scratch / 0x1_0000_0000) as u32),
        (PORT_IS, ALL_BITS),
        (PORT_SERR, ALL_BITS),
        (PORT_IE, 0u32),
        (PORT_CMD, CMD_SUD | CMD_POD),
    ]
}

/// Setting bits of the command register.
pub open spec fn command_bits_set(r: Seq<u64>, p: int, bits: u32) -> Run<Action, ()> {
    crate::replay::follow(
        crate::replay::asked(r, p, Action::Read(PORT_CMD)),
        |c: u64, q: int|
            crate::replay::follow(
                crate::replay::asked(r, q, Action::Write(PORT_CMD, reg(c) | bits)),
                |w: u64, q2: int| Run::Gives((), q2),
            ),
    )
}

/// Starting the port with its pages: whether there is a link.
pub open spec fn port_started(r: Seq<u64>, p: int, cl: u64, scratch: u64) -> Run<Action, bool> {
    crate::replay::follow(
        registers_written(r, p, programming(cl, scratch), 0),
        |w: (), q: int|
            crate::replay::follow(
                command_bits_set(r, q, CMD_FRE),
                |w2: (), q2: int|
                    crate::replay::follow(
                        command_bits_set(r, q2, CMD_ST),
                        |w3: (), q3: int|
                            crate::replay::follow(
                                crate::replay::asked(r, q3, Action::PollLink(100_000)),
                                |w4: u64, q4: int|
                                    crate::replay::follow(
                                        crate::replay::asked(r, q4, Action::Read(PORT_SSTS)),
                                        |v: u64, q5: int|
                                            Run::Gives(reg(v) & 0x0F == 3, q5),
                                    ),
                            ),
                    ),
            ),
    )
}

/// Bringing the port up.
pub open spec fn port_brought_up(r: Seq<u64>, p: int, max_prdt: usize) -> Run<
    Action,
    Result<DiskView, DiskError>,
> {
    crate::replay::follow(
        engine_off(r, p),
        |w: (), q: int|
            crate::replay::follow(
                crate::replay::asked(r, q, Action::AllocPage),
                |cl: u64, q2: int|
                    if cl == 0 {
                        Run::Gives(Err(DiskError::OomList), q2)
                    } else {
                        crate::replay::follow(
                            crate::replay::asked(r, q2, Action::AllocPage),
                            |sc: u64, q3: int|
                                if sc == 0 {
                                    Run::Gives(Err(DiskError::OomScratch), q3)
                                } else {
                                    port_equipped(
                                        r,
                                        q3,
                                        max_prdt,
                                        (cl - 1) as u64,
                                        (sc - 1) as u64,
                                    )
                                },
                        )
                    },
            ),
    )
}

pub open spec fn port_equipped(r: Seq<u64>, p: int, max_prdt: usize, cl: u64, sc: u64) -> Run<
    Action,
    Result<DiskView, DiskError>,
> {
    crate::replay::follow(
        port_started(r, p, cl, sc),
        |up: bool, q: int|
            if up {
                disk_identified(r, q, cl, sc, max_prdt)
            } else {
                Run::Gives(Err(DiskError::NoDevice), q)
            },
    )
}

/// Whether a disk is on the port: a link that is awake, and a disk's signature.
/// What settles it first is not followed by another read.
pub open spec fn has_disk(r: Seq<u64>, p: int) -> Run<Action, bool> {
    crate::replay::follow(
        crate::replay::asked(r, p, Action::Read(PORT_SSTS)),
        |v: u64, q: int|
            if reg(v) & 0x0F != 3 || (reg(v) >> 8) & 0x0F != 1 {
                Run::Gives(false, q)
            } else {
                crate::replay::follow(
                    crate::replay::asked(r, q, Action::Read(PORT_SIG)),
                    |sig: u64, q2: int| Run::Gives(reg(sig) == SIG_DISK, q2),
                )
            },
    )
}

/// The first port from number `i` on that `pi` marks and that comes up with a
/// disk.
pub open spec fn port_found(r: Seq<u64>, p: int, pi: u32, i: int, n: int) -> Run<
    Action,
    Option<(u8, DiskView)>,
>
    decreases n - i,
{
    if i >= n {
        Run::Gives(None, p)
    } else if pi & (1u32 << (i as u8)) == 0 {
        port_found(r, p, pi, i + 1, n)
    } else {
        match crate::replay::follow(
            crate::replay::asked(r, p, Action::SelectPort(i as u8)),
            |w: u64, q: int| has_disk(r, q),
        ) {
            Run::Wants(a) => Run::Wants(a),
            Run::Gives(there, q) => if there {
                match port_brought_up(r, q, MAX_PRDT) {
                    Run::Wants(a) => Run::Wants(a),
                    Run::Gives(Ok(d), q2) => Run::Gives(Some((i as u8, d)), q2),
                    Run::Gives(Err(_), q2) => port_found(r, q2, pi, i + 1, n),
                }
            } else {
                port_found(r, q, pi, i + 1, n)
            },
        }
    }
}

/// Resetting the controller and switching it to AHCI: whether the reset came to
/// an end.
pub open spec fn hba_reset(r: Seq<u64>, p: int) -> Run<Action, bool> {
    crate::replay::follow(
        crate::replay::asked(r, p, Action::WriteHba(0x04, 1)),
        |w: u64, q: int|
            crate::replay::follow(
                crate::replay::asked(r, q, Action::PollHbaClear(0x04, 1, 1000)),
                |w2: u64, q2: int|
                    crate::replay::follow(
                        crate::replay::asked(r, q2, Action::ReadHba(0x04)),
                        |v: u64, q3: int|
                            if reg(v) & 1 != 0 {
                                Run::Gives(false, q3)
                            } else {
                                crate::replay::follow(
                                    crate::replay::asked(r, q3, Action::ReadHba(0x04)),
                                    |g: u64, q4: int|
                                        crate::replay::follow(
                                            crate::replay::asked(
                                                r,
                                                q4,
                                                Action::WriteHba(0x04, reg(g) | 0x8000_0000),
                                            ),
                                            |w3: u64, q5: int| Run::Gives(true, q5),
                                        ),
                                )
                            },
                    ),
            ),
    )
}

/// Bringing up the controller whose registers lie at `base`: the first disk.
pub open spec fn controller_up(r: Seq<u64>, p: int, base: u64) -> Run<
    Action,
    Option<(u8, DiskView)>,
> {
    crate::replay::follow(
        crate::replay::asked(r, p, Action::MapRegisters(base, 0x1000)),
        |w: u64, q: int|
            crate::replay::follow(
                crate::replay::asked(r, q, Action::ReadHba(0x00)),
                |cap: u64, q2: int|
                    crate::replay::follow(
                        crate::replay::asked(r, q2, Action::ReadHba(0x0C)),
                        |pi: u64, q3: int|
                            crate::replay::follow(
                                crate::replay::asked(
                                    r,
                                    q3,
                                    Action::MapRegisters(
                                        base,
                                        crate::blockdriver::ahci::controller::register_bytes(
                                            crate::blockdriver::ahci::controller::ports_in(
                                                reg(cap),
                                            ),
                                        ) as u64,
                                    ),
                                ),
                                |w2: u64, q4: int|
                                    crate::replay::follow(
                                        hba_reset(r, q4),
                                        |over: bool, q5: int|
                                            if over {
                                                port_found(
                                                    r,
                                                    q5,
                                                    reg(pi),
                                                    0,
                                                    crate::blockdriver::ahci::controller::ports_in(
                                                        reg(cap),
                                                    ),
                                                )
                                            } else {
                                                Run::Gives(None, q5)
                                            },
                                    ),
                            ),
                    ),
            ),
    )
}

/// A part of a procedure has handed back a disk by its view.
pub open spec fn went_to(
    before: Ask,
    after: Ask,
    r: Option<Result<Disk, DiskError>>,
    run: Run<Action, Result<DiskView, DiskError>>,
) -> bool {
    &&& after.inv()
    &&& after.replies == before.replies
    &&& match run {
        Run::Wants(a) => r is None && after.wanted == Some(a),
        Run::Gives(Err(e), pos) => r == Some(Err::<Disk, DiskError>(e)) && after.used == pos,
        Run::Gives(Ok(v), pos) => r is Some && r->0 is Ok && r->0->Ok_0@ == v && after.used == pos,
    }
}

fn read_scratch(l: &mut Ask) -> (r: Option<Vec<u16>>)
    requires
        old(l).inv(),
    ensures
        final(l).inv(),
        final(l).replies == old(l).replies,
        match scratch_read(old(l).replies@, old(l).used as int) {
            Run::Wants(a) => r is None && final(l).wanted == Some(a),
            Run::Gives(words, pos) => r is Some && r->0@ == words && r->0@.len() == 256
                && final(l).used == pos,
        },
{
    let mut words: Vec<u16> = Vec::new();
    let mut i: u32 = 0;
    while i < 256
        invariant
            l.inv(),
            l.replies == old(l).replies,
            i <= 256,
            l.used == old(l).used + i,
            words@.len() == i,
            forall|k: int|
                0 <= k < i ==> #[trigger] words@[k] == (l.replies@[old(l).used + k] % 0x1_0000) as u16,
        decreases 256 - i,
    {
        let v: u64 = l.ask(Action::ReadScratch(i))?;
        words.push((v % 0x1_0000) as u16);
        i = i + 1;
    }
    assert(words@ =~= Seq::new(256, |k: int| (l.replies@[old(l).used + k] % 0x1_0000) as u16));
    Some(words)
}

fn identify(l: &mut Ask, cl: u64, scratch: u64, max_prdt: usize) -> (r: Option<
    Result<Disk, DiskError>,
>)
    requires
        old(l).inv(),
        max_prdt <= MAX_PRDT,
    ensures
        went_to(
            *old(l),
            *final(l),
            r,
            disk_identified(old(l).replies@, old(l).used as int, cl, scratch, max_prdt),
        ),
        r is Some && r->0 is Ok ==> r->0->Ok_0.inv(),
{
    l.ask(Action::ClearCommand)?;
    let bytes: [u8; 20] = make_fis(false, 0, 0, 0xEC);
    write_fis(l, &bytes, 0)?;
    l.ask(Action::WritePrd(0, make_region(scratch, 512)))?;
    match start_command(l, cl, false, 1)? {
        Err(e) => Some(Err(e)),
        Ok(()) => {
            let words: Vec<u16> = read_scratch(l)?;
            let id = parse_identify(&words);
            let d = Disk {
                cl_paddr: cl,
                scratch_paddr: scratch,
                max_prdt,
                sector_count: id.sector_count,
                lba48: id.lba48,
                model: id.model,
            };
            assert(d@ =~= disk_of(cl, scratch, max_prdt, words@));
            Some(Ok(d))
        },
    }
}

fn set_command_bits(l: &mut Ask, bits: u32) -> (r: Option<()>)
    requires
        old(l).inv(),
    ensures
        old(l).went(*final(l), r, command_bits_set(old(l).replies@, old(l).used as int, bits)),
{
    let c: u32 = read_reg(l, PORT_CMD)?;
    l.ask(Action::Write(PORT_CMD, c | bits))?;
    Some(())
}

fn start_port(l: &mut Ask, cl: u64, scratch: u64) -> (r: Option<bool>)
    requires
        old(l).inv(),
    ensures
        old(l).went(*final(l), r, port_started(old(l).replies@, old(l).used as int, cl, scratch)),
{
    let writes: [(u32, u32); 8] = [
        (PORT_CLB, (cl % 0x1_0000_0000) as u32),
        (PORT_CLBU, (cl / 0x1_0000_0000) as u32),
        (PORT_FB, (scratch % 0x1_0000_0000) as u32),
        (PORT_FBU, (scratch / 0x1_0000_0000) as u32),
        (PORT_IS, ALL_BITS),
        (PORT_SERR, ALL_BITS),
        (PORT_IE, 0),
        (PORT_CMD, CMD_SUD | CMD_POD),
    ];
    assert(writes@ =~= programming(cl, scratch));
    write_registers(l, &writes, 0)?;
    set_command_bits(l, CMD_FRE)?;
    set_command_bits(l, CMD_ST)?;
    l.ask(Action::PollLink(100_000))?;
    let ssts: u32 = read_reg(l, PORT_SSTS)?;
    Some(ssts & 0x0F == 3)
}

/// Brings the port up.
fn init_one(l: &mut Ask, max_prdt: usize) -> (r: Option<Result<Disk, DiskError>>)
    requires
        old(l).inv(),
        max_prdt <= MAX_PRDT,
    ensures
        went_to(
            *old(l),
            *final(l),
            r,
            port_brought_up(old(l).replies@, old(l).used as int, max_prdt),
        ),
        r is Some && r->0 is Ok ==> r->0->Ok_0.inv(),
{
    stop_engine(l)?;
    let cl: u64 = l.ask(Action::AllocPage)?;
    if cl == 0 {
        return Some(Err(DiskError::OomList));
    }
    let sc: u64 = l.ask(Action::AllocPage)?;
    if sc == 0 {
        return Some(Err(DiskError::OomScratch));
    }
    if !start_port(l, cl - 1, sc - 1)? {
        return Some(Err(DiskError::NoDevice));
    }
    identify(l, cl - 1, sc - 1, max_prdt)
}

fn look_for_disk(l: &mut Ask) -> (r: Option<bool>)
    requires
        old(l).inv(),
    ensures
        old(l).went(*final(l), r, has_disk(old(l).replies@, old(l).used as int)),
{
    let ssts: u32 = read_reg(l, PORT_SSTS)?;
    if ssts & 0x0F != 3 || (ssts >> 8) & 0x0F != 1 {
        return Some(false);
    }
    let sig: u32 = read_reg(l, PORT_SIG)?;
    Some(sig == SIG_DISK)
}

/// A procedure has handed back a port and a disk by its view.
pub open spec fn found(
    before: Ask,
    after: Ask,
    r: Option<Option<(u8, Disk)>>,
    run: Run<Action, Option<(u8, DiskView)>>,
) -> bool {
    &&& after.inv()
    &&& after.replies == before.replies
    &&& match run {
        Run::Wants(a) => r is None && after.wanted == Some(a),
        Run::Gives(None, pos) => r == Some(None::<(u8, Disk)>) && after.used == pos,
        Run::Gives(Some((port, v)), pos) => r is Some && r->0 is Some && (r->0->0).0 == port
            && (r->0->0).1@ == v && after.used == pos,
    }
}

fn find_port(l: &mut Ask, pi: u32, i: u8, n: u8) -> (r: Option<Option<(u8, Disk)>>)
    requires
        old(l).inv(),
        i <= n <= 32,
    ensures
        found(
            *old(l),
            *final(l),
            r,
            port_found(old(l).replies@, old(l).used as int, pi, i as int, n as int),
        ),
        r is Some && r->0 is Some ==> (r->0->0).1.inv(),
    decreases n - i,
{
    if i >= n {
        return Some(None);
    }
    if pi & (1u32 << i) == 0 {
        return find_port(l, pi, i + 1, n);
    }
    l.ask(Action::SelectPort(i))?;
    if !look_for_disk(l)? {
        return find_port(l, pi, i + 1, n);
    }
    match init_one(l, MAX_PRDT)? {
        Ok(d) => Some(Some((i, d))),
        Err(_) => find_port(l, pi, i + 1, n),
    }
}

fn reset_hba(l: &mut Ask) -> (r: Option<bool>)
    requires
        old(l).inv(),
    ensures
        old(l).went(*final(l), r, hba_reset(old(l).replies@, old(l).used as int)),
{
    l.ask(Action::WriteHba(0x04, 1))?;
    l.ask(Action::PollHbaClear(0x04, 1, 1000))?;
    let v: u64 = l.ask(Action::ReadHba(0x04))?;
    if ((v % 0x1_0000_0000) as u32) & 1 != 0 {
        return Some(false);
    }
    let g: u64 = l.ask(Action::ReadHba(0x04))?;
    l.ask(Action::WriteHba(0x04, ((g % 0x1_0000_0000) as u32) | 0x8000_0000))?;
    Some(true)
}

fn run_init(l: &mut Ask, base: u64) -> (r: Option<Option<(u8, Disk)>>)
    requires
        old(l).inv(),
    ensures
        found(
            *old(l),
            *final(l),
            r,
            controller_up(old(l).replies@, old(l).used as int, base),
        ),
        r is Some && r->0 is Some ==> (r->0->0).1.inv(),
{
    l.ask(Action::MapRegisters(base, 0x1000))?;
    let cap: u64 = l.ask(Action::ReadHba(0x00))?;
    let cap: u32 = (cap % 0x1_0000_0000) as u32;
    let pi: u64 = l.ask(Action::ReadHba(0x0C))?;
    let pi: u32 = (pi % 0x1_0000_0000) as u32;
    proof {
        crate::blockdriver::ahci::controller::lemma_fields(cap);
    }
    let n: u8 = (((cap >> 17) & 0x1F) + 1) as u8;
    let size: u64 = (0x100 + (n as u64) * 0x80 + 0x80 + 0xFFF) / 0x1000 * 0x1000;
    l.ask(Action::MapRegisters(base, size))?;
    if !reset_hba(l)? {
        return Some(None);
    }
    find_port(l, pi, 0, n)
}

/// Brings up the controller with the address registers `bars`, or none: the first
/// port with a disk, if there is one.
pub fn init(replies: Vec<u64>, bars: Option<[u32; 6]>) -> (r: Step<Action, Option<(u8, Disk)>>)
    ensures
        bars is None ==> r == Step::<Action, Option<(u8, Disk)>>::Done(None),
        bars is Some ==> !bar_ok(bars->0@[5]) ==> r == Step::<Action, Option<(u8, Disk)>>::Done(
            None,
        ),
        bars is Some && bar_ok(bars->0@[5]) ==> match controller_up(
            replies@,
            0,
            bar_base(bars->0@[4], bars->0@[5]),
        ) {
            Run::Wants(a) => r == Step::<Action, Option<(u8, Disk)>>::Ask(a),
            Run::Gives(None, _) => r == Step::<Action, Option<(u8, Disk)>>::Done(None),
            Run::Gives(Some((port, v)), _) => r is Done && r->Done_0 is Some && (r->Done_0->0).0
                == port && (r->Done_0->0).1@ == v,
        },
        r is Done && r->Done_0 is Some ==> (r->Done_0->0).1.inv(),
{
    match bars {
        None => Step::Done(None),
        Some(b) => {
            let (base, ok) = bar5_addr(b);
            if !ok {
                return Step::Done(None);
            }
            let mut l = Link::start(replies);
            let done: Option<Option<(u8, Disk)>> = run_init(&mut l, base);
            l.finish(done)
        },
    }
}

impl Disk {
    pub fn sector_count(&self) -> (r: u64)
        ensures
            r == self.sector_count,
    {
        self.sector_count
    }

    /// The model, without its padding.
    pub fn model_string(&self) -> (r: String)
        ensures
            r@ == crate::blockdriver::ahci::controller::model_name(self.model@),
    {
        model_text(&self.model)
    }
}

} // verus!
