//! What is exchanged with the keyboard's controller, byte by byte.

use vstd::prelude::*;

use crate::drivers::ps2::controller;
use crate::drivers::ps2::controller::{Action, DevResp, ResetOutcome};
use crate::replay::Run;

verus! {

/// A byte is written as soon as the controller takes one, which bit 1 of its status says when
/// clear; it is not written where that does not come.
pub proof fn law_byte_is_sent(r: Seq<u64>, p: int, port: u16, b: u8)
    requires
        0 <= p <= r.len(),
    ensures
        ({
            let run = controller::byte_sent(r, p, port, b);
            &&& r.len() == p ==> run == Run::<Action, bool>::Wants(
                Action::WaitStatus { mask: 0x02, want_set: false, timeout_ms: 50 },
            )
            &&& r.len() > p && r[p] == 0 ==> run == Run::<Action, bool>::Gives(false, p + 1)
            &&& r.len() == p + 1 && r[p] != 0 ==> run == Run::<Action, bool>::Wants(
                Action::Out(port, b),
            )
            &&& r.len() > p + 1 && r[p] != 0 ==> run == Run::<Action, bool>::Gives(true, p + 2)
        }),
{
}

/// A byte is read as soon as the controller has one, which bit 0 of its status says when set;
/// there is none where that does not come.
pub proof fn law_byte_is_read(r: Seq<u64>, p: int)
    requires
        0 <= p <= r.len(),
    ensures
        ({
            let run = controller::data_read(r, p);
            &&& r.len() == p ==> run == Run::<Action, Option<u8>>::Wants(
                Action::WaitStatus { mask: 0x01, want_set: true, timeout_ms: 100 },
            )
            &&& r.len() > p && r[p] == 0 ==> run == Run::<Action, Option<u8>>::Gives(None, p + 1)
            &&& r.len() == p + 1 && r[p] != 0 ==> run == Run::<Action, Option<u8>>::Wants(
                Action::In(0x60),
            )
            &&& r.len() > p + 1 && r[p] != 0 ==> (run matches Run::Gives(Some(b), q) && b
                == r[p + 1] as int % 256 && q == p + 2)
        }),
{
}

/// The command byte is read by command 20h.
pub proof fn law_command_byte_is_read(r: Seq<u64>, p: int)
    requires
        0 <= p,
        p + 1 <= r.len(),
        r[p] != 0,
    ensures
        r.len() == p + 1 ==> controller::command_byte_read(r, p) == Run::<
            Action,
            Option<u8>,
        >::Wants(Action::Out(0x64, 0x20)),
        r.len() > p + 1 ==> controller::command_byte_read(r, p) == controller::data_read(r, p + 2),
{
}

/// The command byte is written by command 60h and the byte behind it.
pub proof fn law_command_byte_is_written(r: Seq<u64>, p: int, cb: u8)
    requires
        0 <= p,
        p + 1 <= r.len(),
        r[p] != 0,
    ensures
        r.len() == p + 1 ==> controller::command_byte_written(r, p, cb) == Run::<
            Action,
            bool,
        >::Wants(Action::Out(0x64, 0x60)),
        r.len() == p + 3 && r[p + 2] != 0 ==> controller::command_byte_written(r, p, cb) == Run::<
            Action,
            bool,
        >::Wants(Action::Out(0x60, cb)),
        r.len() > p + 3 && r[p + 2] != 0 ==> controller::command_byte_written(r, p, cb) == Run::<
            Action,
            bool,
        >::Gives(true, p + 4),
        r.len() > p + 2 && r[p + 2] == 0 ==> controller::command_byte_written(r, p, cb) == Run::<
            Action,
            bool,
        >::Gives(false, p + 3),
{
}

/// A command byte counts as set only where it reads back.
pub proof fn law_command_byte_reads_back(r: Seq<u64>, p: int, cb: u8)
    requires
        0 <= p,
        p + 8 <= r.len(),
        r[p] != 0,
        r[p + 2] != 0,
        r[p + 4] != 0,
        r[p + 6] != 0,
    ensures
        controller::command_byte_set(r, p, cb) == Run::<Action, bool>::Gives(
            r[p + 7] as int % 256 == cb,
            p + 8,
        ),
{
    law_command_byte_is_written(r, p, cb);
    law_command_byte_is_read(r, p + 4);
    law_byte_is_read(r, p + 6);
}

/// The keyboard takes a byte by FAh. Where it answers FEh, or the controller reports by bit 6
/// or 7 that the answer was garbled, the byte is sent again, as often as is left; any other
/// answer is an error, and none a timeout.
pub proof fn law_byte_is_acknowledged(r: Seq<u64>, p: int, b: u8, tries: nat)
    requires
        0 <= p,
        p + 5 <= r.len(),
        tries > 0,
        r[p] != 0,
        r[p + 2] != 0,
        r[p + 3] < 256,
        r[p + 4] < 256,
    ensures
        ({
            let run = controller::dev_byte_sent(r, p, b, tries);
            let garbled = (r[p + 4] as u8) & 0xC0u8 != 0;
            &&& !garbled && r[p + 3] == 0xFA ==> run == Run::<Action, DevResp>::Gives(
                DevResp::Ack,
                p + 5,
            )
            &&& !garbled && r[p + 3] != 0xFA && r[p + 3] != 0xFE ==> run == Run::<
                Action,
                DevResp,
            >::Gives(DevResp::Error(r[p + 3] as u8), p + 5)
            &&& garbled || r[p + 3] == 0xFE ==> run == controller::dev_byte_sent(
                r,
                p + 5,
                b,
                (tries - 1) as nat,
            )
        }),
{
}

/// The keyboard is sent the byte itself, and its answer is read from the same place.
pub proof fn law_byte_to_the_keyboard(r: Seq<u64>, p: int, b: u8, tries: nat)
    requires
        0 <= p,
        p + 1 <= r.len() <= p + 4,
        tries > 0,
        r[p] != 0,
        r.len() > p + 2 ==> r[p + 2] != 0,
    ensures
        ({
            let run = controller::dev_byte_sent(r, p, b, tries);
            &&& r.len() == p + 1 ==> run == Run::<Action, DevResp>::Wants(Action::Out(0x60, b))
            &&& r.len() == p + 3 ==> run == Run::<Action, DevResp>::Wants(Action::In(0x60))
            &&& r.len() == p + 4 ==> run == Run::<Action, DevResp>::Wants(Action::In(0x64))
        }),
{
}

/// A byte that is never taken is given up.
pub proof fn law_tries_run_out(r: Seq<u64>, p: int, b: u8)
    ensures
        controller::dev_byte_sent(r, p, b, 0) == Run::<Action, DevResp>::Gives(
            DevResp::Error(0xFE),
            p,
        ),
        controller::MAX_RESEND == 3,
{
}

/// The bytes of a command are sent in order, each once the one before it was taken; one that
/// is not taken ends it.
pub proof fn law_bytes_of_a_command(r: Seq<u64>, p: int, bytes: Seq<u8>, i: int, q: int, a: DevResp)
    requires
        0 <= i < bytes.len(),
        controller::dev_byte_sent(r, p, bytes[i], 3) == Run::<Action, DevResp>::Gives(a, q),
    ensures
        a is Ack && i + 1 == bytes.len() ==> controller::dev_commanded(r, p, bytes, i) == Run::<
            Action,
            bool,
        >::Gives(true, q),
        a is Ack && i + 1 < bytes.len() ==> controller::dev_commanded(r, p, bytes, i)
            == controller::dev_commanded(r, q, bytes, i + 1),
        !(a is Ack) ==> controller::dev_commanded(r, p, bytes, i) == Run::<Action, bool>::Gives(
            false,
            q,
        ),
{
}

/// What is left in the controller is read and dropped, while bit 0 of its status is set.
pub proof fn law_rest_is_dropped(r: Seq<u64>, p: int, n: nat, k: nat)
    requires
        0 <= p,
        k <= n,
        p + 2 * k <= r.len(),
        forall|j: int| #![trigger r[p + 2 * j]]
            0 <= j < k ==> (r[p + 2 * j] as int % 256) as u8 & 0x01u8 != 0,
    ensures
        r.len() == p + 2 * k ==> controller::flushed(r, p, n) == Run::<Action, ()>::Wants(
            Action::In(0x64),
        ),
        r.len() > p + 2 * k && (r[p + 2 * k] as int % 256) as u8 & 0x01u8 == 0
            ==> controller::flushed(r, p, n) == Run::<Action, ()>::Gives((), p + 2 * k + 1),
        r.len() == p + 2 * k + 1 && (r[p + 2 * k] as int % 256) as u8 & 0x01u8 != 0 && k < n
            ==> controller::flushed(r, p, n) == Run::<Action, ()>::Wants(Action::In(0x60)),
        r.len() > p + 2 * k && k == n ==> controller::flushed(r, p, n) == Run::<
            Action,
            (),
        >::Gives((), p + 2 * k + 1),
    decreases k,
{
    if k > 0 {
        assert((r[p + 2 * 0] as int % 256) as u8 & 0x01u8 != 0);
        assert forall|j: int| #![trigger r[p + 2 + 2 * j]]
            0 <= j < k - 1 implies (r[p + 2 + 2 * j] as int % 256) as u8 & 0x01u8 != 0 by {
            assert((r[p + 2 * (j + 1)] as int % 256) as u8 & 0x01u8 != 0);
            assert(p + 2 * (j + 1) == p + 2 + 2 * j);
        }
        law_rest_is_dropped(r, p + 2, (n - 1) as nat, (k - 1) as nat);
        assert(p + 2 + 2 * (k - 1) == p + 2 * k);
    }
}

/// A reset keyboard has passed its test where it says AAh and failed where it says FCh, FDh,
/// FFh or 0, before the time is over.
pub proof fn law_keyboard_is_tested(r: Seq<u64>, p: int, deadline: u64)
    requires
        0 <= p,
        p + 3 <= r.len(),
        r[p + 1] != 0,
        r[p + 2] < 256,
    ensures
        ({
            let run = controller::bat_awaited(r, p, deadline);
            let b = r[p + 2];
            &&& r[p] >= deadline ==> run == Run::<Action, ResetOutcome>::Gives(
                ResetOutcome::Timeout,
                p + 1,
            )
            &&& r[p] < deadline && b == 0xAA ==> run == Run::<Action, ResetOutcome>::Gives(
                ResetOutcome::Passed,
                p + 3,
            )
            &&& r[p] < deadline && (b == 0xFC || b == 0xFD || b == 0xFF || b == 0) ==> run == Run::<
                Action,
                ResetOutcome,
            >::Gives(ResetOutcome::Failed, p + 3)
        }),
{
}

/// A second has a thousand million steps of the clock.
pub proof fn law_second(now: u64)
    requires
        now < 0x8000_0000_0000_0000,
    ensures
        controller::second_after(now) == now + 1000 * 1000 * 1000,
{
}

/// The keyboard is reset by FFh and asked who it is by F2h.
pub proof fn law_commands_of_the_keyboard(r: Seq<u64>, p: int)
    requires
        0 <= p,
        r.len() == p + 1,
        r[p] != 0,
    ensures
        controller::device_reset(r, p) == Run::<Action, ResetOutcome>::Wants(
            Action::Out(0x60, 0xFF),
        ),
        controller::device_identified(r, p) == Run::<Action, (u8, u8)>::Wants(
            Action::Out(0x60, 0xF2),
        ),
{
    law_byte_to_the_keyboard(r, p, 0xFF, 3);
    law_byte_to_the_keyboard(r, p, 0xF2, 3);
}

/// A test of the controller is passed where its command is taken and answered as expected.
pub proof fn law_test_is_answered(r: Seq<u64>, p: int, cmd: u8, expected: u8)
    requires
        0 <= p,
        p + 4 <= r.len(),
        r[p] != 0,
    ensures
        r[p + 2] != 0 ==> controller::answered_with(r, p, cmd, expected) == Run::<
            Action,
            bool,
        >::Gives(r[p + 3] as int % 256 == expected, p + 4),
        r[p + 2] == 0 ==> controller::answered_with(r, p, cmd, expected) == Run::<
            Action,
            bool,
        >::Gives(false, p + 3),
{
    law_byte_is_sent(r, p, 0x64, cmd);
    law_byte_is_read(r, p + 2);
}

/// The controller is tested with both ports switched off, by ADh and A7h, and with nothing
/// left in it: it has to answer 55h to AAh, and 0 to ABh.
pub proof fn law_controller_is_tested(r: Seq<u64>, p: int)
    requires
        0 <= p,
        r.len() >= p + 1,
        r[p] != 0,
    ensures
        ({
            let run = controller::controller_tested(r, p);
            &&& r.len() == p + 1 ==> run == Run::<Action, bool>::Wants(Action::Out(0x64, 0xAD))
            &&& r.len() == p + 3 && r[p + 2] != 0 ==> run == Run::<Action, bool>::Wants(
                Action::Out(0x64, 0xA7),
            )
            &&& r.len() > p + 4 && r[p + 2] != 0 && (r[p + 4] as int % 256) as u8 & 0x01u8 == 0 ==> {
                &&& r.len() == p + 6 && r[p + 5] != 0 ==> run == Run::<Action, bool>::Wants(
                    Action::Out(0x64, 0xAA),
                )
                &&& r.len() == p + 10 && r[p + 5] != 0 && r[p + 7] != 0 && r[p + 8] == 0x55
                    && r[p + 9] != 0 ==> run == Run::<Action, bool>::Wants(Action::Out(0x64, 0xAB))
                &&& r.len() >= p + 13 && r[p + 5] != 0 && r[p + 7] != 0 && r[p + 8] == 0x55
                    && r[p + 9] != 0 && r[p + 11] != 0 ==> run == Run::<Action, bool>::Gives(
                    r[p + 12] as int % 256 == 0,
                    p + 13,
                )
                &&& r.len() > p + 8 && r[p + 5] != 0 && r[p + 7] != 0 && r[p + 8] as int % 256
                    != 0x55 ==> run == Run::<Action, bool>::Gives(false, p + 9)
            }
        }),
{
    law_byte_is_sent(r, p, 0x64, 0xAD);
    if r.len() >= p + 2 {
        law_byte_is_sent(r, p + 2, 0x64, 0xA7);
    }
    if r.len() > p + 4 {
        law_rest_is_dropped(r, p + 4, 64, 0);
    }
    if r.len() > p + 5 {
        law_byte_is_sent(r, p + 5, 0x64, 0xAA);
    }
    if r.len() > p + 8 && r[p + 5] != 0 {
        law_test_is_answered(r, p + 5, 0xAA, 0x55);
    }
    if r.len() > p + 9 {
        law_byte_is_sent(r, p + 9, 0x64, 0xAB);
    }
    if r.len() >= p + 13 && r[p + 9] != 0 {
        law_test_is_answered(r, p + 9, 0xAB, 0);
    }
}

/// The numbers of the controller: its two ports, the bits of its state and of its command
/// byte, what it and the keyboard are told, and what they answer.
pub proof fn law_numbers_of_the_controller()
    ensures
        controller::PS2_DATA == 0x60 && controller::PS2_CMD == 0x64,
        controller::ST_OUTPUT_BUFFER_FULL == 1 && controller::ST_INPUT_BUFFER_FULL == 2,
        controller::ST_AUX_OUTPUT == 0x20 && controller::ST_TRANSFER_ERR == 0x80 + 0x40,
        controller::CB_KBD_IRQ == 1 && controller::CB_TRANSLATE == 0x40,
        controller::CMD_READ_CMD_BYTE == 0x20 && controller::CMD_WRITE_CMD_BYTE == 0x60,
        controller::CMD_SELF_TEST == 0xAA && controller::CMD_TEST_KBD == 0xAB,
        controller::CMD_DISABLE_KBD == 0xAD && controller::CMD_ENABLE_KBD == 0xAE,
        controller::CMD_DISABLE_AUX == 0xA7,
        controller::DEV_RESET == 0xFF && controller::DEV_DISABLE_SCAN == 0xF5,
        controller::DEV_ENABLE_SCAN == 0xF4 && controller::DEV_SET_SCANCODE_SET == 0xF0,
        controller::DEV_SET_TYPEMATIC == 0xF3 && controller::DEV_IDENTIFY == 0xF2,
        controller::DEV_SET_LEDS == 0xED,
        controller::ACK == 0xFA && controller::RESEND == 0xFE,
        controller::SELF_TEST_OK == 0x55 && controller::INTERFACE_TEST_OK == 0,
        controller::BAT_OK == 0xAA && controller::BAT_ERROR == 0xFC,
        controller::MAX_RESEND == 3 && controller::FLUSH_LIMIT == 64,
        crate::drivers::ps2::ring::RAW_CAPACITY == 64,
{
}

} // verus!
