//! The 8042 controller and the keyboard behind it: commands and set-up.
//!
//! Every byte that goes to the keyboard is acknowledged before the next one
//! follows. All waits are bounded by a deadline.

use crate::replay::{Link, Run, Step};
use vstd::prelude::*;

verus! {

pub const PS2_DATA: u16 = 0x60;

pub const PS2_CMD: u16 = 0x64;

// Bits of the status register.
pub const ST_OUTPUT_BUFFER_FULL: u8 = 0x01;

pub const ST_INPUT_BUFFER_FULL: u8 = 0x02;

pub const ST_AUX_OUTPUT: u8 = 0x20;

/// A timeout or a parity error on the last transfer.
pub const ST_TRANSFER_ERR: u8 = 0xC0;

// Commands of the controller.
pub const CMD_READ_CMD_BYTE: u8 = 0x20;

pub const CMD_WRITE_CMD_BYTE: u8 = 0x60;

pub const CMD_SELF_TEST: u8 = 0xAA;

pub const CMD_TEST_KBD: u8 = 0xAB;

pub const CMD_DISABLE_KBD: u8 = 0xAD;

pub const CMD_ENABLE_KBD: u8 = 0xAE;

pub const CMD_DISABLE_AUX: u8 = 0xA7;

// Bits of the controller's command byte.
pub const CB_KBD_IRQ: u8 = 0x01;

pub const CB_TRANSLATE: u8 = 0x40;

// Commands of the keyboard.
pub const DEV_RESET: u8 = 0xFF;

pub const DEV_DISABLE_SCAN: u8 = 0xF5;

pub const DEV_ENABLE_SCAN: u8 = 0xF4;

pub const DEV_SET_SCANCODE_SET: u8 = 0xF0;

pub const DEV_SET_TYPEMATIC: u8 = 0xF3;

pub const DEV_IDENTIFY: u8 = 0xF2;

pub const DEV_SET_LEDS: u8 = 0xED;

// Answers.
pub const ACK: u8 = 0xFA;

pub const RESEND: u8 = 0xFE;

pub const SELF_TEST_OK: u8 = 0x55;

pub const INTERFACE_TEST_OK: u8 = 0x00;

pub const BAT_OK: u8 = 0xAA;

pub const BAT_ERROR: u8 = 0xFC;

/// How often a byte is sent before the driver gives up.
pub const MAX_RESEND: u32 = 3;

/// How many bytes a flush discards at most.
pub const FLUSH_LIMIT: u32 = 64;

/// What the driver asks of the machine.
#[derive(Debug, Clone, Copy, PartialEq, Eq, Structural)]
pub enum Action {
    /// Poll the status register until the bits of `mask` are set (or clear), or
    /// `timeout_ms` have passed. The reply says whether they are.
    WaitStatus { mask: u8, want_set: bool, timeout_ms: u64 },
    /// Read a byte from a port.
    In(u16),
    /// Write a byte to a port.
    Out(u16, u8),
    /// Read the clock, in nanoseconds.
    Now,
    /// Keep the processor from taking interrupts. The reply says whether it took
    /// them before.
    MaskInterrupts,
    /// Let the processor take interrupts again, if it did before.
    RestoreInterrupts(bool),
    /// Route the keyboard's interrupt. The reply is its vector, or zero where it
    /// cannot be routed.
    RouteIrq,
}

/// How a wait goes on.
#[derive(Debug, Clone, Copy, PartialEq, Eq, Structural)]
pub enum Waiting {
    Met,
    Expired,
    Again,
}

/// The time at which a wait that starts at `now` ends.
pub fn deadline_after(now: u64, timeout_ms: u64) -> (r: u64)
    requires
        timeout_ms * 1_000_000 <= u64::MAX,
    ensures
        r == if now + timeout_ms * 1_000_000 <= u64::MAX {
            now + timeout_ms * 1_000_000
        } else {
            u64::MAX as int
        },
{
    now.saturating_add(timeout_ms * 1_000_000)
}

/// Whether a wait for the bits of `mask` has come to its end. The bits are looked
/// at before the clock.
pub fn wait_status(status: u8, mask: u8, want_set: bool, now: u64, deadline: u64) -> (r: Waiting)
    ensures
        r == (if (status & mask != 0) == want_set {
            Waiting::Met
        } else if now >= deadline {
            Waiting::Expired
        } else {
            Waiting::Again
        }),
{
    if (status & mask != 0) == want_set {
        Waiting::Met
    } else if now >= deadline {
        Waiting::Expired
    } else {
        Waiting::Again
    }
}

/// Waiting until the controller takes a byte.
pub open spec fn input_clear() -> Action {
    Action::WaitStatus { mask: ST_INPUT_BUFFER_FULL, want_set: false, timeout_ms: 50 }
}

/// Waiting until the controller has a byte.
pub open spec fn output_full() -> Action {
    Action::WaitStatus { mask: ST_OUTPUT_BUFFER_FULL, want_set: true, timeout_ms: 100 }
}

/// Reading one byte, if one comes.
pub open spec fn data_read(r: Seq<u64>, p: int) -> Run<Action, Option<u8>> {
    crate::replay::follow(
        crate::replay::asked(r, p, output_full()),
        |v: u64, q: int|
            if crate::replay::is_set(v) {
                crate::replay::follow(
                    crate::replay::asked(r, q, Action::In(PS2_DATA)),
                    |b: u64, q2: int| Run::Gives(Some(crate::replay::low_byte(b)), q2),
                )
            } else {
                Run::Gives(None, q)
            },
    )
}

/// Writing one byte to a port as soon as the controller takes it.
pub open spec fn byte_sent(r: Seq<u64>, p: int, port: u16, byte: u8) -> Run<Action, bool> {
    crate::replay::follow(
        crate::replay::asked(r, p, input_clear()),
        |v: u64, q: int|
            if crate::replay::is_set(v) {
                crate::replay::follow(
                    crate::replay::asked(r, q, Action::Out(port, byte)),
                    |w: u64, q2: int| Run::Gives(true, q2),
                )
            } else {
                Run::Gives(false, q)
            },
    )
}

/// Reading the controller's command byte.
pub open spec fn command_byte_read(r: Seq<u64>, p: int) -> Run<Action, Option<u8>> {
    crate::replay::follow(
        byte_sent(r, p, PS2_CMD, CMD_READ_CMD_BYTE),
        |ok: bool, q: int|
            if ok {
                data_read(r, q)
            } else {
                Run::Gives(None, q)
            },
    )
}

/// Writing the controller's command byte.
pub open spec fn command_byte_written(r: Seq<u64>, p: int, cb: u8) -> Run<Action, bool> {
    crate::replay::follow(
        byte_sent(r, p, PS2_CMD, CMD_WRITE_CMD_BYTE),
        |ok: bool, q: int|
            if ok {
                byte_sent(r, q, PS2_DATA, cb)
            } else {
                Run::Gives(false, q)
            },
    )
}

/// Writing the controller's command byte and reading it back: whether the
/// controller holds it.
pub open spec fn command_byte_set(r: Seq<u64>, p: int, cb: u8) -> Run<Action, bool> {
    crate::replay::follow(
        command_byte_written(r, p, cb),
        |ok: bool, q: int|
            if ok {
                crate::replay::follow(
                    command_byte_read(r, q),
                    |b: Option<u8>, q2: int| Run::Gives(b == Some(cb), q2),
                )
            } else {
                Run::Gives(false, q)
            },
    )
}

/// Discarding what the controller's output buffer holds, `left` bytes at most.
pub open spec fn flushed(r: Seq<u64>, p: int, left: nat) -> Run<Action, ()>
    decreases left,
{
    crate::replay::follow(
        crate::replay::asked(r, p, Action::In(PS2_CMD)),
        |v: u64, q: int|
            if crate::replay::low_byte(v) & ST_OUTPUT_BUFFER_FULL != 0 && left > 0 {
                crate::replay::follow(
                    crate::replay::asked(r, q, Action::In(PS2_DATA)),
                    |b: u64, q2: int| flushed(r, q2, (left - 1) as nat),
                )
            } else {
                Run::Gives((), q)
            },
    )
}

/// How the keyboard took a byte.
#[derive(Debug, Clone, Copy, PartialEq, Eq, Structural)]
pub enum DevResp {
    Ack,
    Error(u8),
    Timeout,
}

/// Sending the keyboard a byte, `tries` times at most. It is sent again where the
/// keyboard asks for it, and where the controller reports that the transfer of
/// the answer went wrong.
pub open spec fn dev_byte_sent(r: Seq<u64>, p: int, byte: u8, tries: nat) -> Run<Action, DevResp>
    decreases tries,
{
    if tries == 0 {
        Run::Gives(DevResp::Error(RESEND), p)
    } else {
        crate::replay::follow(
            byte_sent(r, p, PS2_DATA, byte),
            |ok: bool, q: int|
                if ok {
                    crate::replay::follow(
                        data_read(r, q),
                        |answer: Option<u8>, q2: int|
                            match answer {
                                None => Run::Gives(DevResp::Timeout, q2),
                                Some(b) => crate::replay::follow(
                                    crate::replay::asked(r, q2, Action::In(PS2_CMD)),
                                    |st: u64, q3: int|
                                        if crate::replay::low_byte(st) & ST_TRANSFER_ERR != 0 || b
                                            == RESEND {
                                            dev_byte_sent(r, q3, byte, (tries - 1) as nat)
                                        } else if b == ACK {
                                            Run::Gives(DevResp::Ack, q3)
                                        } else {
                                            Run::Gives(DevResp::Error(b), q3)
                                        },
                                ),
                            },
                    )
                } else {
                    Run::Gives(DevResp::Timeout, q)
                },
        )
    }
}

/// Sending the keyboard a command from its byte `i` on, each byte once the one
/// before it has been acknowledged: whether all of them were.
pub open spec fn dev_commanded(r: Seq<u64>, p: int, bytes: Seq<u8>, i: int) -> Run<Action, bool>
    decreases bytes.len() - i,
{
    if i >= bytes.len() {
        Run::Gives(true, p)
    } else {
        crate::replay::follow(
            dev_byte_sent(r, p, bytes[i], MAX_RESEND as nat),
            |resp: DevResp, q: int|
                if resp == DevResp::Ack {
                    dev_commanded(r, q, bytes, i + 1)
                } else {
                    Run::Gives(false, q)
                },
        )
    }
}

/// What came of a reset of the keyboard.
#[derive(Debug, Clone, Copy, PartialEq, Eq, Structural)]
pub enum ResetOutcome {
    Passed,
    Failed,
    Timeout,
}

/// A byte by which the keyboard reports that its self-test failed.
pub open spec fn is_bat_failure(b: u8) -> bool {
    b == BAT_ERROR || b == 0x00 || b == 0xFD || b == 0xFF
}

/// The replies that are left.
pub open spec fn left(r: Seq<u64>, p: int) -> nat {
    if p < r.len() {
        (r.len() - p) as nat
    } else {
        0
    }
}

/// Waiting until `deadline` for what the keyboard's self-test found. Other bytes
/// are passed over.
pub open spec fn bat_awaited(r: Seq<u64>, p: int, deadline: u64) -> Run<Action, ResetOutcome>
    decreases left(r, p),
{
    match crate::replay::asked(r, p, Action::Now) {
        Run::Wants(a) => Run::Wants(a),
        Run::Gives(now, q) => if now >= deadline {
            Run::Gives(ResetOutcome::Timeout, q)
        } else {
            match data_read(r, q) {
                Run::Wants(a) => Run::Wants(a),
                Run::Gives(answer, q2) => if answer == Some(BAT_OK) {
                    Run::Gives(ResetOutcome::Passed, q2)
                } else if answer is Some && is_bat_failure(answer->0) {
                    Run::Gives(ResetOutcome::Failed, q2)
                } else {
                    bat_awaited(r, q2, deadline)
                },
            }
        },
    }
}

/// The time one second after `now`.
pub open spec fn second_after(now: u64) -> u64 {
    if now + 1_000_000_000 <= u64::MAX {
        (now + 1_000_000_000) as u64
    } else {
        u64::MAX
    }
}

/// Resetting the keyboard: the command is acknowledged, then the result of its
/// self-test is awaited for a second.
pub open spec fn device_reset(r: Seq<u64>, p: int) -> Run<Action, ResetOutcome> {
    crate::replay::follow(
        dev_byte_sent(r, p, DEV_RESET, MAX_RESEND as nat),
        |resp: DevResp, q: int|
            if resp == DevResp::Ack {
                crate::replay::follow(
                    crate::replay::asked(r, q, Action::Now),
                    |now: u64, q2: int| bat_awaited(r, q2, second_after(now)),
                )
            } else {
                Run::Gives(ResetOutcome::Failed, q)
            },
    )
}

/// Asking the keyboard who it is: up to two bytes, zero where it does not say.
pub open spec fn device_identified(r: Seq<u64>, p: int) -> Run<Action, (u8, u8)> {
    crate::replay::follow(
        dev_byte_sent(r, p, DEV_IDENTIFY, MAX_RESEND as nat),
        |resp: DevResp, q: int|
            if resp == DevResp::Ack {
                crate::replay::follow(
                    data_read(r, q),
                    |first: Option<u8>, q2: int|
                        match first {
                            None => Run::Gives((0u8, 0u8), q2),
                            Some(a) => crate::replay::follow(
                                data_read(r, q2),
                                |second: Option<u8>, q3: int|
                                    match second {
                                        None => Run::Gives((a, 0u8), q3),
                                        Some(b) => Run::Gives((a, b), q3),
                                    },
                            ),
                        },
                )
            } else {
                Run::Gives((0u8, 0u8), q)
            },
    )
}

/// The machine's interrupts and the keyboard's own are masked around a command
/// and set back behind it, and the output buffer is emptied before and behind.
pub open spec fn guarded_command(r: Seq<u64>, p: int, bytes: Seq<u8>) -> Run<Action, bool> {
    crate::replay::follow(
        crate::replay::asked(r, p, Action::MaskInterrupts),
        |was: u64, q: int|
            crate::replay::follow(
                masked_command(r, q, bytes),
                |ok: bool, q2: int|
                    crate::replay::follow(
                        crate::replay::asked(
                            r,
                            q2,
                            Action::RestoreInterrupts(crate::replay::is_set(was)),
                        ),
                        |w: u64, q3: int| Run::Gives(ok, q3),
                    ),
            ),
    )
}

/// The part of a guarded command for which the machine takes no interrupts.
pub open spec fn masked_command(r: Seq<u64>, p: int, bytes: Seq<u8>) -> Run<Action, bool> {
    crate::replay::follow(
        flushed(r, p, FLUSH_LIMIT as nat),
        |u: (), q: int|
            crate::replay::follow(
                command_byte_read(r, q),
                |read: Option<u8>, q2: int|
                    match read {
                        None => Run::Gives(false, q2),
                        Some(cb) => crate::replay::follow(
                            command_byte_written(r, q2, cb & !CB_KBD_IRQ),
                            |ok: bool, q3: int|
                                if ok {
                                    quiet_command(r, q3, bytes, cb)
                                } else {
                                    Run::Gives(false, q3)
                                },
                        ),
                    },
            ),
    )
}

/// The part of a guarded command for which the keyboard raises no interrupts;
/// `cb` is written back behind it, whatever came of the command.
pub open spec fn quiet_command(r: Seq<u64>, p: int, bytes: Seq<u8>, cb: u8) -> Run<Action, bool> {
    crate::replay::follow(
        flushed(r, p, FLUSH_LIMIT as nat),
        |u: (), q: int|
            crate::replay::follow(
                dev_commanded(r, q, bytes, 0),
                |ok: bool, q2: int|
                    crate::replay::follow(
                        flushed(r, q2, FLUSH_LIMIT as nat),
                        |u2: (), q3: int|
                            crate::replay::follow(
                                command_byte_written(r, q3, cb),
                                |w: bool, q4: int| Run::Gives(ok, q4),
                            ),
                    ),
            ),
    )
}

type Ps2Link = Link<Action>;

/// Waits until the controller has a byte, and reads it.
fn read_data(l: &mut Ps2Link) -> (r: Option<Option<u8>>)
    requires
        old(l).inv(),
    ensures
        old(l).went(*final(l), r, data_read(old(l).replies@, old(l).used as int)),
{
    if l.ask_flag(
        Action::WaitStatus { mask: ST_OUTPUT_BUFFER_FULL, want_set: true, timeout_ms: 100 },
    )? {
        let b: u8 = l.ask_byte(Action::In(PS2_DATA))?;
        Some(Some(b))
    } else {
        Some(None)
    }
}

/// Waits until the controller takes a byte, and writes it to `port`.
fn send_byte(l: &mut Ps2Link, port: u16, byte: u8) -> (r: Option<bool>)
    requires
        old(l).inv(),
    ensures
        old(l).went(*final(l), r, byte_sent(old(l).replies@, old(l).used as int, port, byte)),
{
    if l.ask_flag(
        Action::WaitStatus { mask: ST_INPUT_BUFFER_FULL, want_set: false, timeout_ms: 50 },
    )? {
        l.ask(Action::Out(port, byte))?;
        Some(true)
    } else {
        Some(false)
    }
}

fn read_command_byte(l: &mut Ps2Link) -> (r: Option<Option<u8>>)
    requires
        old(l).inv(),
    ensures
        old(l).went(*final(l), r, command_byte_read(old(l).replies@, old(l).used as int)),
{
    if send_byte(l, PS2_CMD, CMD_READ_CMD_BYTE)? {
        read_data(l)
    } else {
        Some(None)
    }
}

fn write_command_byte(l: &mut Ps2Link, cb: u8) -> (r: Option<bool>)
    requires
        old(l).inv(),
    ensures
        old(l).went(*final(l), r, command_byte_written(old(l).replies@, old(l).used as int, cb)),
{
    if send_byte(l, PS2_CMD, CMD_WRITE_CMD_BYTE)? {
        send_byte(l, PS2_DATA, cb)
    } else {
        Some(false)
    }
}

fn write_command_byte_verified(l: &mut Ps2Link, cb: u8) -> (r: Option<bool>)
    requires
        old(l).inv(),
    ensures
        old(l).went(*final(l), r, command_byte_set(old(l).replies@, old(l).used as int, cb)),
{
    if write_command_byte(l, cb)? {
        let read: Option<u8> = read_command_byte(l)?;
        match read {
            Some(b) => Some(b == cb),
            None => Some(false),
        }
    } else {
        Some(false)
    }
}

/// Empties the controller's output buffer, `limit` bytes at most.
fn flush_output(l: &mut Ps2Link, limit: u32) -> (r: Option<()>)
    requires
        old(l).inv(),
    ensures
        old(l).went(*final(l), r, flushed(old(l).replies@, old(l).used as int, limit as nat)),
    decreases limit,
{
    let status: u8 = l.ask_byte(Action::In(PS2_CMD))?;
    if status & ST_OUTPUT_BUFFER_FULL != 0 && limit > 0 {
        l.ask(Action::In(PS2_DATA))?;
        flush_output(l, limit - 1)
    } else {
        Some(())
    }
}

/// Sends the keyboard one byte and waits for its answer, `tries` times at most.
fn send_dev_byte(l: &mut Ps2Link, byte: u8, tries: u32) -> (r: Option<DevResp>)
    requires
        old(l).inv(),
    ensures
        old(l).went(
            *final(l),
            r,
            dev_byte_sent(old(l).replies@, old(l).used as int, byte, tries as nat),
        ),
    decreases tries,
{
    if tries == 0 {
        return Some(DevResp::Error(RESEND));
    }
    if !send_byte(l, PS2_DATA, byte)? {
        return Some(DevResp::Timeout);
    }
    match read_data(l)? {
        None => Some(DevResp::Timeout),
        Some(b) => {
            let status: u8 = l.ask_byte(Action::In(PS2_CMD))?;
            if status & ST_TRANSFER_ERR != 0 || b == RESEND {
                send_dev_byte(l, byte, tries - 1)
            } else if b == ACK {
                Some(DevResp::Ack)
            } else {
                Some(DevResp::Error(b))
            }
        },
    }
}

/// Sends the keyboard a command from its byte `i` on.
fn dev_command(l: &mut Ps2Link, bytes: &[u8], i: usize) -> (r: Option<bool>)
    requires
        old(l).inv(),
        i <= bytes@.len(),
    ensures
        old(l).went(
            *final(l),
            r,
            dev_commanded(old(l).replies@, old(l).used as int, bytes@, i as int),
        ),
    decreases bytes@.len() - i,
{
    if i >= bytes.len() {
        return Some(true);
    }
    match send_dev_byte(l, bytes[i], MAX_RESEND)? {
        DevResp::Ack => dev_command(l, bytes, i + 1),
        _ => Some(false),
    }
}

/// Waits until `deadline` for the result of the keyboard's self-test.
fn await_bat(l: &mut Ps2Link, deadline: u64) -> (r: Option<ResetOutcome>)
    requires
        old(l).inv(),
    ensures
        old(l).went(*final(l), r, bat_awaited(old(l).replies@, old(l).used as int, deadline)),
    decreases old(l).replies@.len() - old(l).used,
{
    let now: u64 = l.ask(Action::Now)?;
    if now >= deadline {
        return Some(ResetOutcome::Timeout);
    }
    match read_data(l)? {
        Some(b) => {
            if b == BAT_OK {
                Some(ResetOutcome::Passed)
            } else if b == BAT_ERROR || b == 0x00 || b == 0xFD || b == 0xFF {
                Some(ResetOutcome::Failed)
            } else {
                await_bat(l, deadline)
            }
        },
        None => await_bat(l, deadline),
    }
}

fn reset_device(l: &mut Ps2Link) -> (r: Option<ResetOutcome>)
    requires
        old(l).inv(),
    ensures
        old(l).went(*final(l), r, device_reset(old(l).replies@, old(l).used as int)),
{
    match send_dev_byte(l, DEV_RESET, MAX_RESEND)? {
        DevResp::Ack => {
            let now: u64 = l.ask(Action::Now)?;
            let deadline: u64 = now.saturating_add(1_000_000_000);
            await_bat(l, deadline)
        },
        _ => Some(ResetOutcome::Failed),
    }
}

fn identify_device(l: &mut Ps2Link) -> (r: Option<(u8, u8)>)
    requires
        old(l).inv(),
    ensures
        old(l).went(*final(l), r, device_identified(old(l).replies@, old(l).used as int)),
{
    match send_dev_byte(l, DEV_IDENTIFY, MAX_RESEND)? {
        DevResp::Ack => match read_data(l)? {
            None => Some((0, 0)),
            Some(a) => match read_data(l)? {
                None => Some((a, 0)),
                Some(b) => Some((a, b)),
            },
        },
        _ => Some((0, 0)),
    }
}

fn quietly(l: &mut Ps2Link, bytes: &[u8], cb: u8) -> (r: Option<bool>)
    requires
        old(l).inv(),
    ensures
        old(l).went(*final(l), r, quiet_command(old(l).replies@, old(l).used as int, bytes@, cb)),
{
    flush_output(l, FLUSH_LIMIT)?;
    let ok: bool = dev_command(l, bytes, 0)?;
    flush_output(l, FLUSH_LIMIT)?;
    write_command_byte(l, cb)?;
    Some(ok)
}

fn uninterrupted(l: &mut Ps2Link, bytes: &[u8]) -> (r: Option<bool>)
    requires
        old(l).inv(),
    ensures
        old(l).went(*final(l), r, masked_command(old(l).replies@, old(l).used as int, bytes@)),
{
    flush_output(l, FLUSH_LIMIT)?;
    match read_command_byte(l)? {
        None => Some(false),
        Some(cb) => if write_command_byte(l, cb & !CB_KBD_IRQ)? {
            quietly(l, bytes, cb)
        } else {
            Some(false)
        },
    }
}

/// Sends the keyboard a command while its interrupt may be armed.
fn run_guarded(l: &mut Ps2Link, bytes: &[u8]) -> (r: Option<bool>)
    requires
        old(l).inv(),
    ensures
        old(l).went(*final(l), r, guarded_command(old(l).replies@, old(l).used as int, bytes@)),
{
    let was: bool = l.ask_flag(Action::MaskInterrupts)?;
    let ok: bool = uninterrupted(l, bytes)?;
    l.ask(Action::RestoreInterrupts(was))?;
    Some(ok)
}

/// Sends the keyboard a command at any time after it was set up: whether the
/// keyboard acknowledged it.
pub fn runtime_dev_command(replies: Vec<u64>, bytes: &[u8]) -> (r: Step<Action, bool>)
    ensures
        r == crate::replay::told(guarded_command(replies@, 0, bytes@)),
{
    let mut l = Link::start(replies);
    let ok: Option<bool> = run_guarded(&mut l, bytes);
    l.finish(ok)
}

/// What a set-up has left behind.
#[derive(Debug, Clone, Copy, PartialEq, Eq, Structural)]
pub struct Setup {
    /// The keyboard is there and configured.
    pub ready: bool,
    /// The vector that the keyboard's interrupt was routed to.
    pub vector: Option<u8>,
    /// The keyboard raises interrupts; it is polled otherwise.
    pub irq: bool,
}

pub open spec fn no_setup() -> Setup {
    Setup { ready: false, vector: None, irq: false }
}

/// Both ports are switched off, and the controller and its keyboard port are
/// tested: whether they passed.
pub open spec fn controller_tested(r: Seq<u64>, p: int) -> Run<Action, bool> {
    crate::replay::follow(
        byte_sent(r, p, PS2_CMD, CMD_DISABLE_KBD),
        |ok: bool, q: int|
            if ok {
                crate::replay::follow(
                    byte_sent(r, q, PS2_CMD, CMD_DISABLE_AUX),
                    |w: bool, q2: int|
                        crate::replay::follow(
                            flushed(r, q2, FLUSH_LIMIT as nat),
                            |u: (), q3: int|
                                crate::replay::follow(
                                    answered_with(r, q3, CMD_SELF_TEST, SELF_TEST_OK),
                                    |passed: bool, q4: int|
                                        if passed {
                                            answered_with(r, q4, CMD_TEST_KBD, INTERFACE_TEST_OK)
                                        } else {
                                            Run::Gives(false, q4)
                                        },
                                ),
                        ),
                )
            } else {
                Run::Gives(false, q)
            },
    )
}

/// A test command of the controller: whether it was taken and answered by
/// `expected`.
pub open spec fn answered_with(r: Seq<u64>, p: int, cmd: u8, expected: u8) -> Run<Action, bool> {
    crate::replay::follow(
        byte_sent(r, p, PS2_CMD, cmd),
        |ok: bool, q: int|
            if ok {
                crate::replay::follow(
                    data_read(r, q),
                    |b: Option<u8>, q2: int| Run::Gives(b == Some(expected), q2),
                )
            } else {
                Run::Gives(false, q)
            },
    )
}

/// The command byte while the keyboard is being configured: its interrupt is
/// masked, and scancodes are translated.
pub open spec fn quiet_config(cb: u8) -> u8 {
    (cb & !CB_KBD_IRQ) | CB_TRANSLATE
}

/// The command byte with the keyboard's interrupt armed.
pub open spec fn armed_config(cb: u8) -> u8 {
    (quiet_config(cb) & !CB_KBD_IRQ) | CB_KBD_IRQ
}

/// Translation is switched on, the keyboard's port is opened and the keyboard is
/// reset, silenced and configured: whether it can be used. That the reset, the
/// repeat rate or the scancode set is not acknowledged is no obstacle.
pub open spec fn keyboard_configured(r: Seq<u64>, p: int, cb: u8) -> Run<Action, bool> {
    crate::replay::follow(
        command_byte_set(r, p, quiet_config(cb)),
        |set: bool, q: int|
            if set {
                crate::replay::follow(
                    byte_sent(r, q, PS2_CMD, CMD_ENABLE_KBD),
                    |enabled: bool, q2: int|
                        if enabled {
                            crate::replay::follow(
                                device_reset(r, q2),
                                |o: ResetOutcome, q3: int|
                                    crate::replay::follow(
                                        dev_commanded(r, q3, seq![DEV_DISABLE_SCAN], 0),
                                        |silent: bool, q4: int|
                                            if silent {
                                                keyboard_tuned(r, q4)
                                            } else {
                                                Run::Gives(false, q4)
                                            },
                                    ),
                            )
                        } else {
                            Run::Gives(false, q2)
                        },
                )
            } else {
                Run::Gives(false, q)
            },
    )
}

/// The silent keyboard is asked who it is, and told its repeat rate (250 ms, 30
/// per second) and its scancode set.
pub open spec fn keyboard_tuned(r: Seq<u64>, p: int) -> Run<Action, bool> {
    crate::replay::follow(
        device_identified(r, p),
        |id: (u8, u8), q: int|
            crate::replay::follow(
                dev_commanded(r, q, seq![DEV_SET_TYPEMATIC, 0x00u8], 0),
                |w: bool, q2: int|
                    crate::replay::follow(
                        dev_commanded(r, q2, seq![DEV_SET_SCANCODE_SET, 0x02u8], 0),
                        |w2: bool, q3: int| Run::Gives(true, q3),
                    ),
            ),
    )
}

/// The keyboard's interrupt is routed and then armed, while the machine takes
/// none: the vector, and whether the controller holds the armed command byte.
pub open spec fn irq_armed(r: Seq<u64>, p: int, cb: u8) -> Run<Action, (Option<u8>, bool)> {
    crate::replay::follow(
        crate::replay::asked(r, p, Action::RouteIrq),
        |v: u64, q: int|
            crate::replay::follow(
                flushed(r, q, FLUSH_LIMIT as nat),
                |u: (), q2: int|
                    if crate::replay::is_set(v) {
                        crate::replay::follow(
                            crate::replay::asked(r, q2, Action::MaskInterrupts),
                            |was: u64, q3: int|
                                crate::replay::follow(
                                    command_byte_set(r, q3, armed_config(cb)),
                                    |live: bool, q4: int|
                                        crate::replay::follow(
                                            crate::replay::asked(
                                                r,
                                                q4,
                                                Action::RestoreInterrupts(
                                                    crate::replay::is_set(was),
                                                ),
                                            ),
                                            |w: u64, q5: int|
                                                Run::Gives(
                                                    (Some(crate::replay::low_byte(v)), live),
                                                    q5,
                                                ),
                                        ),
                                ),
                        )
                    } else {
                        Run::Gives((None, false), q2)
                    },
            ),
    )
}

/// The set-up of a controller whose command byte was `cb`, up to the point at
/// which the keyboard scans again.
pub open spec fn configured(r: Seq<u64>, p: int, cb: u8) -> Run<Action, Setup> {
    crate::replay::follow(
        controller_tested(r, p),
        |passed: bool, q: int|
            if passed {
                crate::replay::follow(
                    keyboard_configured(r, q, cb),
                    |usable: bool, q2: int|
                        if usable {
                            crate::replay::follow(
                                irq_armed(r, q2, cb),
                                |armed: (Option<u8>, bool), q3: int|
                                    crate::replay::follow(
                                        guarded_command(r, q3, seq![DEV_ENABLE_SCAN]),
                                        |scans: bool, q4: int|
                                            Run::Gives(
                                                Setup {
                                                    ready: scans,
                                                    vector: armed.0,
                                                    irq: armed.1,
                                                },
                                                q4,
                                            ),
                                    ),
                            )
                        } else {
                            Run::Gives(no_setup(), q2)
                        },
                )
            } else {
                Run::Gives(no_setup(), q)
            },
    )
}

/// The whole set-up. Where it fails once the controller's command byte is known,
/// that byte is written back, so that a later attempt starts afresh.
pub open spec fn initialised(r: Seq<u64>, p: int) -> Run<Action, Setup> {
    crate::replay::follow(
        flushed(r, p, FLUSH_LIMIT as nat),
        |u: (), q: int|
            crate::replay::follow(
                command_byte_read(r, q),
                |read: Option<u8>, q2: int|
                    match read {
                        None => Run::Gives(no_setup(), q2),
                        Some(cb) => crate::replay::follow(
                            configured(r, q2, cb),
                            |s: Setup, q3: int|
                                if s.ready {
                                    Run::Gives(s, q3)
                                } else {
                                    crate::replay::follow(
                                        command_byte_written(r, q3, cb),
                                        |w: bool, q4: int| Run::Gives(s, q4),
                                    )
                                },
                        ),
                    },
            ),
    )
}

fn test_answers(l: &mut Ps2Link, cmd: u8, expected: u8) -> (r: Option<bool>)
    requires
        old(l).inv(),
    ensures
        old(l).went(
            *final(l),
            r,
            answered_with(old(l).replies@, old(l).used as int, cmd, expected),
        ),
{
    if !send_byte(l, PS2_CMD, cmd)? {
        return Some(false);
    }
    match read_data(l)? {
        Some(b) => Some(b == expected),
        None => Some(false),
    }
}

fn test_controller(l: &mut Ps2Link) -> (r: Option<bool>)
    requires
        old(l).inv(),
    ensures
        old(l).went(*final(l), r, controller_tested(old(l).replies@, old(l).used as int)),
{
    if !send_byte(l, PS2_CMD, CMD_DISABLE_KBD)? {
        return Some(false);
    }
    send_byte(l, PS2_CMD, CMD_DISABLE_AUX)?;
    flush_output(l, FLUSH_LIMIT)?;
    if !test_answers(l, CMD_SELF_TEST, SELF_TEST_OK)? {
        return Some(false);
    }
    test_answers(l, CMD_TEST_KBD, INTERFACE_TEST_OK)
}

fn tune_keyboard(l: &mut Ps2Link) -> (r: Option<bool>)
    requires
        old(l).inv(),
    ensures
        old(l).went(*final(l), r, keyboard_tuned(old(l).replies@, old(l).used as int)),
{
    identify_device(l)?;
    let typematic: [u8; 2] = [DEV_SET_TYPEMATIC, 0x00];
    assert(typematic@ =~= seq![DEV_SET_TYPEMATIC, 0x00u8]);
    dev_command(l, &typematic, 0)?;
    let set: [u8; 2] = [DEV_SET_SCANCODE_SET, 0x02];
    assert(set@ =~= seq![DEV_SET_SCANCODE_SET, 0x02u8]);
    dev_command(l, &set, 0)?;
    Some(true)
}

fn configure_keyboard(l: &mut Ps2Link, cb: u8) -> (r: Option<bool>)
    requires
        old(l).inv(),
    ensures
        old(l).went(*final(l), r, keyboard_configured(old(l).replies@, old(l).used as int, cb)),
{
    if !write_command_byte_verified(l, (cb & !CB_KBD_IRQ) | CB_TRANSLATE)? {
        return Some(false);
    }
    if !send_byte(l, PS2_CMD, CMD_ENABLE_KBD)? {
        return Some(false);
    }
    reset_device(l)?;
    let silence: [u8; 1] = [DEV_DISABLE_SCAN];
    assert(silence@ =~= seq![DEV_DISABLE_SCAN]);
    if !dev_command(l, &silence, 0)? {
        return Some(false);
    }
    tune_keyboard(l)
}

fn arm_irq(l: &mut Ps2Link, cb: u8) -> (r: Option<(Option<u8>, bool)>)
    requires
        old(l).inv(),
    ensures
        old(l).went(*final(l), r, irq_armed(old(l).replies@, old(l).used as int, cb)),
{
    let vector: u64 = l.ask(Action::RouteIrq)?;
    flush_output(l, FLUSH_LIMIT)?;
    if vector == 0 {
        return Some((None, false));
    }
    let cfg: u8 = (cb & !CB_KBD_IRQ) | CB_TRANSLATE;
    let was: bool = l.ask_flag(Action::MaskInterrupts)?;
    let live: bool = write_command_byte_verified(l, (cfg & !CB_KBD_IRQ) | CB_KBD_IRQ)?;
    l.ask(Action::RestoreInterrupts(was))?;
    Some((Some((vector % 256) as u8), live))
}

fn configure(l: &mut Ps2Link, cb: u8) -> (r: Option<Setup>)
    requires
        old(l).inv(),
    ensures
        old(l).went(*final(l), r, configured(old(l).replies@, old(l).used as int, cb)),
{
    if !test_controller(l)? {
        return Some(Setup { ready: false, vector: None, irq: false });
    }
    if !configure_keyboard(l, cb)? {
        return Some(Setup { ready: false, vector: None, irq: false });
    }
    let armed: (Option<u8>, bool) = arm_irq(l, cb)?;
    let scan: [u8; 1] = [DEV_ENABLE_SCAN];
    assert(scan@ =~= seq![DEV_ENABLE_SCAN]);
    let ready: bool = run_guarded(l, &scan)?;
    Some(Setup { ready, vector: armed.0, irq: armed.1 })
}

fn initialise(l: &mut Ps2Link) -> (r: Option<Setup>)
    requires
        old(l).inv(),
    ensures
        old(l).went(*final(l), r, initialised(old(l).replies@, old(l).used as int)),
{
    flush_output(l, FLUSH_LIMIT)?;
    match read_command_byte(l)? {
        None => Some(Setup { ready: false, vector: None, irq: false }),
        Some(cb) => {
            let s: Setup = configure(l, cb)?;
            if !s.ready {
                write_command_byte(l, cb)?;
            }
            Some(s)
        },
    }
}

/// Sets the controller and the keyboard up.
pub fn do_init(replies: Vec<u64>) -> (r: Step<Action, Setup>)
    ensures
        r == crate::replay::told(initialised(replies@, 0)),
{
    let mut l = Link::start(replies);
    let s: Option<Setup> = initialise(&mut l);
    l.finish(s)
}

/// An attempt that fails once the command byte was read ends by writing that byte
/// back.
pub proof fn law_failure_restores(r: Seq<u64>, cb: u8, q: int, end: int, s: Setup)
    requires
        flushed(r, 0, FLUSH_LIMIT as nat) is Gives,
        command_byte_read(r, flushed(r, 0, FLUSH_LIMIT as nat)->Gives_1) == Run::<
            Action,
            Option<u8>,
        >::Gives(Some(cb), q),
        initialised(r, 0) == Run::<Action, Setup>::Gives(s, end),
        !s.ready,
    ensures
        configured(r, q, cb) is Gives,
        command_byte_written(r, configured(r, q, cb)->Gives_1, cb) is Gives,
        command_byte_written(r, configured(r, q, cb)->Gives_1, cb)->Gives_1 == end,
{
}

/// A command for which the keyboard's interrupt was switched off ends, whatever came of
/// it, by writing back the command byte that was read, and by leaving the machine's
/// interrupts as they were.
pub proof fn law_command_restores(
    r: Seq<u64>,
    bytes: Seq<u8>,
    cb: u8,
    q: int,
    masked: int,
    ok: bool,
    end: int,
)
    requires
        flushed(r, 1, FLUSH_LIMIT as nat) is Gives,
        command_byte_read(r, flushed(r, 1, FLUSH_LIMIT as nat)->Gives_1) == Run::<
            Action,
            Option<u8>,
        >::Gives(Some(cb), q),
        command_byte_written(r, q, cb & !CB_KBD_IRQ) == Run::<Action, bool>::Gives(true, masked),
        guarded_command(r, 0, bytes) == Run::<Action, bool>::Gives(ok, end),
    ensures
        ({
            let sent = dev_commanded(
                r,
                flushed(r, masked, FLUSH_LIMIT as nat)->Gives_1,
                bytes,
                0,
            );
            let drained = flushed(r, sent->Gives_1, FLUSH_LIMIT as nat);
            let back = command_byte_written(r, drained->Gives_1, cb);
            &&& sent is Gives
            &&& sent->Gives_0 == ok
            &&& drained is Gives
            &&& back is Gives
            &&& crate::replay::asked(
                r,
                back->Gives_1,
                Action::RestoreInterrupts(crate::replay::is_set(r[0])),
            ) == Run::<Action, u64>::Gives(r[end - 1], end)
        }),
{
}

/// The keyboard's interrupt stays masked and translation on while it is being
/// configured, and arming it changes nothing else.
pub proof fn law_configuration(cb: u8)
    ensures
        quiet_config(cb) & CB_KBD_IRQ == 0,
        quiet_config(cb) & CB_TRANSLATE == CB_TRANSLATE,
        armed_config(cb) == quiet_config(cb) | CB_KBD_IRQ,
{
    assert(((cb & !0x01u8) | 0x40u8) & 0x01u8 == 0 && ((cb & !0x01u8) | 0x40u8) & 0x40u8 == 0x40u8
        && (((cb & !0x01u8) | 0x40u8) & !0x01u8) | 0x01u8 == ((cb & !0x01u8) | 0x40u8) | 0x01u8)
        by (bit_vector);
}

} // verus!
