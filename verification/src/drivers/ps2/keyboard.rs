//! The driver's state: the ring of raw bytes, the decoder, the lights, and what
//! the set-up found.

use crate::drivers::ps2::controller::{
    do_init, Action, Setup, DEV_SET_LEDS, ST_AUX_OUTPUT, ST_OUTPUT_BUFFER_FULL,
};
use crate::drivers::ps2::decoder::{DecState, Decoded, Decoder, KeyCode};
use crate::drivers::ps2::ring::{SpScRing, RAW_CAPACITY};
use crate::replay::Step;
use vstd::prelude::*;

verus! {

/// The lights have never been set.
pub const LEDS_UNKNOWN: u8 = 0xFF;

pub struct Keyboard {
    pub queue: SpScRing,
    pub decoder: Decoder,
    /// Bytes that were dropped because the ring was full.
    pub overflows: u64,
    pub present: bool,
    pub irq_enabled: bool,
    pub irq_vector: u8,
    /// What the lights show.
    pub led_state: u8,
    /// The number under which the keyboard submits its events; zero while it has
    /// none.
    pub device_id: u32,
}

/// What one byte from the keyboard leads to.
#[derive(Debug, Clone, Copy, PartialEq, Eq, Structural)]
pub enum Output {
    /// A lock key changed: the lights are due.
    SyncLeds { caps: bool, num: bool, scroll: bool },
    /// A key event for the input core: `value` is 1 for a press, 0 for a release.
    Event { device_id: u32, code: KeyCode, value: i32 },
}

/// How the interrupt handler goes on.
#[derive(Debug, Clone, Copy, PartialEq, Eq, Structural)]
pub enum IrqNext {
    /// Look at the controller again; so many bytes have been kept.
    More(usize),
    Stop,
}

/// Which way an interrupt line signals.
#[derive(Debug, Clone, Copy, PartialEq, Eq, Structural)]
pub enum Polarity {
    ActiveHigh,
    ActiveLow,
}

/// Whether an interrupt line signals by an edge or by a level.
#[derive(Debug, Clone, Copy, PartialEq, Eq, Structural)]
pub enum TriggerMode {
    Edge,
    Level,
}

/// The event for a decoded key, or none while the keyboard has no number.
pub open spec fn event_for(device_id: u32, d: Decoded) -> Seq<Output> {
    if device_id == 0 {
        Seq::empty()
    } else {
        match d {
            Decoded::Press(code) => seq![Output::Event { device_id, code, value: 1 }],
            Decoded::Release(code) => seq![Output::Event { device_id, code, value: 0 }],
        }
    }
}

/// What `byte` leads to: the lights come before the event.
pub open spec fn outputs_of(device_id: u32, d: Decoder, byte: u8) -> Seq<Output> {
    let after = crate::drivers::ps2::decoder::decoder_after(d, byte);
    let lights = if crate::drivers::ps2::decoder::is_lock(d.state, byte) {
        seq![Output::SyncLeds { caps: after.caps, num: after.num, scroll: after.scroll }]
    } else {
        Seq::empty()
    };
    lights + match crate::drivers::ps2::decoder::event_of(d, byte) {
        Some(e) => event_for(device_id, e),
        None => Seq::empty(),
    }
}

/// What a run of bytes leads to, the first one first.
pub open spec fn outputs_all(device_id: u32, d: Decoder, bytes: Seq<u8>) -> Seq<Output>
    decreases bytes.len(),
{
    if bytes.len() == 0 {
        Seq::empty()
    } else {
        outputs_of(device_id, d, bytes[0]) + outputs_all(
            device_id,
            crate::drivers::ps2::decoder::decoder_after(d, bytes[0]),
            bytes.skip(1),
        )
    }
}

/// The decoder behind a run of bytes.
pub open spec fn decoder_behind(d: Decoder, bytes: Seq<u8>) -> Decoder
    decreases bytes.len(),
{
    if bytes.len() == 0 {
        d
    } else {
        decoder_behind(
            crate::drivers::ps2::decoder::decoder_after(d, bytes[0]),
            bytes.skip(1),
        )
    }
}

/// The byte that shows the lock keys.
pub open spec fn led_byte(caps: bool, num: bool, scroll: bool) -> int {
    (if scroll {
        1int
    } else {
        0
    }) + (if num {
        2int
    } else {
        0
    }) + (if caps {
        4int
    } else {
        0
    })
}

impl Keyboard {
    pub open spec fn inv(self) -> bool {
        self.queue.inv()
    }

    pub fn new() -> (r: Self)
        ensures
            r.inv(),
            r.queue@ == Seq::<u8>::empty(),
            !r.present,
            r.overflows == 0,
            r.device_id == 0,
            r.led_state == LEDS_UNKNOWN,
            r.decoder == (Decoder {
                state: DecState::Idle,
                prtsc_pending: false,
                caps: false,
                num: false,
                scroll: false,
            }),
            !r.irq_enabled,
            r.irq_vector == 0,
    {
        Keyboard {
            queue: SpScRing::new(),
            decoder: Decoder::new(),
            overflows: 0,
            present: false,
            irq_enabled: false,
            irq_vector: 0,
            led_state: LEDS_UNKNOWN,
            device_id: 0,
        }
    }

    /// The interrupt handler takes one byte, of which the status register said
    /// `status`, after it has kept `drained` bytes. A byte of the second port is
    /// discarded; a byte for which the ring has no room is counted, and ends the
    /// handler.
    pub fn irq_accept(&mut self, drained: usize, status: u8, byte: u8) -> (r: IrqNext)
        requires
            old(self).inv(),
            drained < RAW_CAPACITY,
        ensures
            final(self).inv(),
            r == (if status & ST_AUX_OUTPUT != 0 {
                IrqNext::More(drained)
            } else if old(self).queue@.len() < RAW_CAPACITY - 1 {
                IrqNext::More((drained + 1) as usize)
            } else {
                IrqNext::Stop
            }),
            final(self).queue@ == (if r == IrqNext::More((drained + 1) as usize) {
                old(self).queue@.push(byte)
            } else {
                old(self).queue@
            }),
            final(self).overflows == (if r is Stop && old(self).overflows < u64::MAX {
                old(self).overflows + 1
            } else {
                old(self).overflows as int
            }),
            *final(self) == (Keyboard {
                queue: final(self).queue,
                overflows: final(self).overflows,
                ..*old(self)
            }),
    {
        if status & ST_AUX_OUTPUT != 0 {
            return IrqNext::More(drained);
        }
        if !self.queue.push(byte) {
            if self.overflows < u64::MAX {
                self.overflows = self.overflows + 1;
            }
            return IrqNext::Stop;
        }
        IrqNext::More(drained + 1)
    }

    /// Takes one byte from the keyboard.
    pub fn poll_byte(&mut self, byte: u8) -> (r: Vec<Output>)
        ensures
            r@ == outputs_of(old(self).device_id, old(self).decoder, byte),
            *final(self) == (Keyboard {
                decoder: crate::drivers::ps2::decoder::decoder_after(old(self).decoder, byte),
                ..*old(self)
            }),
    {
        let mut out: Vec<Output> = Vec::new();
        let (event, lights) = self.decoder.feed(byte);
        if lights {
            out.push(
                Output::SyncLeds {
                    caps: self.decoder.caps,
                    num: self.decoder.num,
                    scroll: self.decoder.scroll,
                },
            );
        }
        if self.device_id != 0 {
            match event {
                Some(Decoded::Press(code)) => out.push(
                    Output::Event { device_id: self.device_id, code, value: 1 },
                ),
                Some(Decoded::Release(code)) => out.push(
                    Output::Event { device_id: self.device_id, code, value: 0 },
                ),
                None => {},
            }
        }
        assert(out@ =~= outputs_of(old(self).device_id, old(self).decoder, byte));
        out
    }

    /// Empties the ring, decodes its bytes and hands out what they lead to, in
    /// order.
    pub fn poll_device(&mut self) -> (r: Vec<Output>)
        requires
            old(self).inv(),
        ensures
            final(self).inv(),
            r@ == outputs_all(old(self).device_id, old(self).decoder, old(self).queue@),
            final(self).queue@ == Seq::<u8>::empty(),
            *final(self) == (Keyboard {
                queue: final(self).queue,
                decoder: decoder_behind(old(self).decoder, old(self).queue@),
                ..*old(self)
            }),
    {
        let mut out: Vec<Output> = Vec::new();
        loop
            invariant
                self.inv(),
                out@ + outputs_all(self.device_id, self.decoder, self.queue@) == outputs_all(
                    old(self).device_id,
                    old(self).decoder,
                    old(self).queue@,
                ),
                decoder_behind(self.decoder, self.queue@) == decoder_behind(
                    old(self).decoder,
                    old(self).queue@,
                ),
                *self == (Keyboard { queue: self.queue, decoder: self.decoder, ..*old(self) }),
            decreases self.queue@.len(),
        {
            match self.queue.pop() {
                None => {
                    assert(self.queue@ =~= Seq::<u8>::empty());
                    assert(out@ + Seq::<Output>::empty() =~= out@);
                    return out;
                },
                Some(byte) => {
                    let ghost before = out@;
                    let mut more: Vec<Output> = self.poll_byte(byte);
                    let ghost rest = outputs_all(self.device_id, self.decoder, self.queue@);
                    let ghost these = more@;
                    out.append(&mut more);
                    assert(before + (these + rest) =~= out@ + rest);
                },
            }
        }
    }

    /// The command that makes the lights show the lock keys, unless they do.
    pub fn set_leds(&self, caps: bool, num: bool, scroll: bool) -> (r: Option<[u8; 2]>)
        ensures
            r is None <==> self.led_state == led_byte(caps, num, scroll),
            r is Some ==> r->0@ == seq![DEV_SET_LEDS, led_byte(caps, num, scroll) as u8],
    {
        let mut led: u8 = 0;
        if scroll {
            led = led + 1;
        }
        if num {
            led = led + 2;
        }
        if caps {
            led = led + 4;
        }
        if self.led_state == led {
            return None;
        }
        let cmd: [u8; 2] = [DEV_SET_LEDS, led];
        assert(cmd@ =~= seq![DEV_SET_LEDS, led]);
        Some(cmd)
    }

    /// The keyboard has acknowledged the lights `led`, or has not.
    pub fn leds_answered(&mut self, led: u8, acknowledged: bool)
        ensures
            *final(self) == (if acknowledged {
                Keyboard { led_state: led, ..*old(self) }
            } else {
                *old(self)
            }),
    {
        if acknowledged {
            self.led_state = led;
        }
    }

    /// The input core has given the keyboard a number.
    pub fn attach(&mut self, device_id: u32)
        ensures
            *final(self) == (Keyboard { device_id, ..*old(self) }),
    {
        self.device_id = device_id;
    }
}

/// Whether the interrupt handler takes another byte, where the status register
/// reads `status` and it has kept `drained` bytes.
pub fn irq_more(status: u8, drained: usize) -> (r: bool)
    ensures
        r == (status & ST_OUTPUT_BUFFER_FULL != 0 && drained < RAW_CAPACITY),
{
    status & ST_OUTPUT_BUFFER_FULL != 0 && drained < RAW_CAPACITY
}

/// The line of the keyboard's interrupt: what the firmware overrides it with, or
/// line 1, active high, by edge.
pub fn resolve_gsi(overridden: Option<(u32, Polarity, TriggerMode)>) -> (r: (
    u32,
    Polarity,
    TriggerMode,
))
    ensures
        r == (match overridden {
            Some(line) => line,
            None => (1u32, Polarity::ActiveHigh, TriggerMode::Edge),
        }),
{
    match overridden {
        Some(line) => line,
        None => (1, Polarity::ActiveHigh, TriggerMode::Edge),
    }
}

/// The driver behind a set-up that ended in `s`.
pub open spec fn set_up(kb: Keyboard, s: Setup) -> Keyboard {
    Keyboard {
        present: s.ready,
        irq_enabled: if s.vector is Some {
            s.irq
        } else {
            kb.irq_enabled
        },
        irq_vector: match s.vector {
            Some(v) => v,
            None => kb.irq_vector,
        },
        ..kb
    }
}

/// Sets the keyboard up: whether there is one. A keyboard that is there already
/// is left alone.
pub fn init(kb: &mut Keyboard, replies: Vec<u64>) -> (r: Step<Action, bool>)
    ensures
        old(kb).present ==> r == Step::<Action, bool>::Done(true) && *final(kb) == *old(kb),
        !old(kb).present ==> match crate::replay::told(
            crate::drivers::ps2::controller::initialised(replies@, 0),
        ) {
            Step::Ask(a) => r == Step::<Action, bool>::Ask(a) && *final(kb) == *old(kb),
            Step::Done(s) => r == Step::<Action, bool>::Done(s.ready) && *final(kb) == set_up(
                *old(kb),
                s,
            ),
        },
{
    if kb.present {
        return Step::Done(true);
    }
    match do_init(replies) {
        Step::Ask(a) => Step::Ask(a),
        Step::Done(s) => {
            if let Some(v) = s.vector {
                kb.irq_vector = v;
                kb.irq_enabled = s.irq;
            }
            kb.present = s.ready;
            Step::Done(s.ready)
        },
    }
}

/// Whether a keyboard was found and configured.
pub fn is_present(kb: &Keyboard) -> (r: bool)
    ensures
        r == kb.present,
{
    kb.present
}

/// The number of bytes that were dropped because the ring was full.
pub fn overflow_count(kb: &Keyboard) -> (r: u64)
    ensures
        r == kb.overflows,
{
    kb.overflows
}

} // verus!
