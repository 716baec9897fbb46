//! Decoding of translated set 1 scancodes into physical keys.
//!
//! A make code below `0x80` says that a key went down, the same code with the top
//! bit set that it went up. `E0` announces an extended key. Pause sends
//! `E1 1D 45` when it goes down and `E1 F0 1D F0 45` when it goes up, and Print
//! Screen sends `E0 2A E0 37`.

use vstd::prelude::*;

verus! {

/// A key by its place on the keyboard, whatever is printed on it.
#[derive(Debug, Clone, Copy, PartialEq, Eq, Structural)]
pub enum KeyCode {
    Escape,
    Digit1,
    Digit2,
    Digit3,
    Digit4,
    Digit5,
    Digit6,
    Digit7,
    Digit8,
    Digit9,
    Digit0,
    Minus,
    Equal,
    Backspace,
    Tab,
    Q,
    W,
    E,
    R,
    T,
    Y,
    U,
    I,
    O,
    P,
    LeftBrace,
    RightBrace,
    Enter,
    ControlLeft,
    A,
    S,
    D,
    F,
    G,
    H,
    J,
    K,
    L,
    Semicolon,
    Apostrophe,
    Grave,
    ShiftLeft,
    Backslash,
    Z,
    X,
    C,
    V,
    B,
    N,
    M,
    Comma,
    Dot,
    Slash,
    ShiftRight,
    KeypadMultiply,
    AltLeft,
    Space,
    CapsLock,
    F1,
    F2,
    F3,
    F4,
    F5,
    F6,
    F7,
    F8,
    F9,
    F10,
    F11,
    F12,
    NumLock,
    ScrollLock,
    Keypad0,
    Keypad1,
    Keypad2,
    Keypad3,
    Keypad4,
    Keypad5,
    Keypad6,
    Keypad7,
    Keypad8,
    Keypad9,
    KeypadSubtract,
    KeypadAdd,
    KeypadDecimal,
    KeypadDivide,
    KeypadEnter,
    ControlRight,
    AltRight,
    SuperLeft,
    SuperRight,
    Menu,
    PrintScreen,
    Pause,
    ArrowUp,
    ArrowDown,
    ArrowLeft,
    ArrowRight,
    Insert,
    Delete,
    Home,
    End,
    PageUp,
    PageDown,
}

/// A decoded physical key.
#[derive(Debug, Clone, Copy, PartialEq, Eq, Structural)]
pub enum Decoded {
    Press(KeyCode),
    Release(KeyCode),
}

/// What has been seen of a sequence.
#[derive(Debug, Clone, Copy, PartialEq, Eq, Structural)]
pub enum DecState {
    Idle,
    GotE0,
    /// `E1` seen; `1D` (make) or `F0` (break) comes next.
    PauseFirst,
    /// Pause make: `E1 1D` seen, `45` comes next.
    PauseMake45,
    /// Pause break: `E1 F0` seen, `1D` comes next.
    PauseBreak1D,
    /// Pause break: `E1 F0 1D` seen, `F0` comes next.
    PauseBreakF0,
    /// Pause break: `E1 F0 1D F0` seen, `45` comes next.
    PauseBreak45,
}

/// The keys of the codes `02` to `0D`.
pub const DIGIT_ROW: [KeyCode; 12] = [
    KeyCode::Digit1,
    KeyCode::Digit2,
    KeyCode::Digit3,
    KeyCode::Digit4,
    KeyCode::Digit5,
    KeyCode::Digit6,
    KeyCode::Digit7,
    KeyCode::Digit8,
    KeyCode::Digit9,
    KeyCode::Digit0,
    KeyCode::Minus,
    KeyCode::Equal,
];

/// The keys of the codes `10` to `19`.
pub const TOP_ROW: [KeyCode; 10] = [
    KeyCode::Q,
    KeyCode::W,
    KeyCode::E,
    KeyCode::R,
    KeyCode::T,
    KeyCode::Y,
    KeyCode::U,
    KeyCode::I,
    KeyCode::O,
    KeyCode::P,
];

/// The keys of the codes `1E` to `26`.
pub const HOME_ROW: [KeyCode; 9] = [
    KeyCode::A,
    KeyCode::S,
    KeyCode::D,
    KeyCode::F,
    KeyCode::G,
    KeyCode::H,
    KeyCode::J,
    KeyCode::K,
    KeyCode::L,
];

/// The keys of the codes `2C` to `32`.
pub const BOTTOM_ROW: [KeyCode; 7] = [
    KeyCode::Z,
    KeyCode::X,
    KeyCode::C,
    KeyCode::V,
    KeyCode::B,
    KeyCode::N,
    KeyCode::M,
];

/// The keys of the codes `3B` to `44`.
pub const FN_KEYS: [KeyCode; 10] = [
    KeyCode::F1,
    KeyCode::F2,
    KeyCode::F3,
    KeyCode::F4,
    KeyCode::F5,
    KeyCode::F6,
    KeyCode::F7,
    KeyCode::F8,
    KeyCode::F9,
    KeyCode::F10,
];

/// The keys of the codes `47` to `53`. Whether one is a digit or a direction is
/// not decided here.
pub const KEYPAD: [KeyCode; 13] = [
    KeyCode::Keypad7,
    KeyCode::Keypad8,
    KeyCode::Keypad9,
    KeyCode::KeypadSubtract,
    KeyCode::Keypad4,
    KeyCode::Keypad5,
    KeyCode::Keypad6,
    KeyCode::KeypadAdd,
    KeyCode::Keypad1,
    KeyCode::Keypad2,
    KeyCode::Keypad3,
    KeyCode::Keypad0,
    KeyCode::KeypadDecimal,
];

/// The key of a code that belongs to no row.
pub open spec fn key_alone(code: u8) -> Option<KeyCode> {
    match code {
        0x01 => Some(KeyCode::Escape),
        0x0E => Some(KeyCode::Backspace),
        0x0F => Some(KeyCode::Tab),
        0x1A => Some(KeyCode::LeftBrace),
        0x1B => Some(KeyCode::RightBrace),
        0x1C => Some(KeyCode::Enter),
        0x1D => Some(KeyCode::ControlLeft),
        0x27 => Some(KeyCode::Semicolon),
        0x28 => Some(KeyCode::Apostrophe),
        0x29 => Some(KeyCode::Grave),
        0x2A => Some(KeyCode::ShiftLeft),
        0x2B => Some(KeyCode::Backslash),
        0x33 => Some(KeyCode::Comma),
        0x34 => Some(KeyCode::Dot),
        0x35 => Some(KeyCode::Slash),
        0x36 => Some(KeyCode::ShiftRight),
        0x37 => Some(KeyCode::KeypadMultiply),
        0x38 => Some(KeyCode::AltLeft),
        0x39 => Some(KeyCode::Space),
        0x3A => Some(KeyCode::CapsLock),
        0x45 => Some(KeyCode::NumLock),
        0x46 => Some(KeyCode::ScrollLock),
        0x57 => Some(KeyCode::F11),
        0x58 => Some(KeyCode::F12),
        _ => None,
    }
}

/// The key of a code that no prefix announced.
pub open spec fn key_named(code: u8) -> Option<KeyCode> {
    if 0x02 <= code <= 0x0D {
        Some(DIGIT_ROW@[code - 0x02])
    } else     if 0x10 <= code <= 0x19 {
        Some(TOP_ROW@[code - 0x10])
    } else     if 0x1E <= code <= 0x26 {
        Some(HOME_ROW@[code - 0x1E])
    } else     if 0x2C <= code <= 0x32 {
        Some(BOTTOM_ROW@[code - 0x2C])
    } else     if 0x3B <= code <= 0x44 {
        Some(FN_KEYS@[code - 0x3B])
    } else     if 0x47 <= code <= 0x53 {
        Some(KEYPAD@[code - 0x47])
    } else {
        key_alone(code)
    }
}

/// The key of a code behind `E0`, but for Print Screen.
pub open spec fn key_extended(code: u8) -> Option<KeyCode> {
    match code {
        0x1D => Some(KeyCode::ControlRight),
        0x38 => Some(KeyCode::AltRight),
        0x5B => Some(KeyCode::SuperLeft),
        0x5C => Some(KeyCode::SuperRight),
        0x5D => Some(KeyCode::Menu),
        0x35 => Some(KeyCode::KeypadDivide),
        0x1C => Some(KeyCode::KeypadEnter),
        0x48 => Some(KeyCode::ArrowUp),
        0x50 => Some(KeyCode::ArrowDown),
        0x4B => Some(KeyCode::ArrowLeft),
        0x4D => Some(KeyCode::ArrowRight),
        0x52 => Some(KeyCode::Insert),
        0x53 => Some(KeyCode::Delete),
        0x47 => Some(KeyCode::Home),
        0x4F => Some(KeyCode::End),
        0x49 => Some(KeyCode::PageUp),
        0x51 => Some(KeyCode::PageDown),
        _ => None,
    }
}

/// `byte` starts no sequence and says that a key went up, as its top bit shows.
pub open spec fn is_break(byte: u8) -> bool {
    byte >= 0x80
}

/// The code of a byte without its top bit.
pub open spec fn code_of(byte: u8) -> u8 {
    (byte % 128) as u8
}

/// A press or a release of a key, as the top bit of `byte` says.
pub open spec fn way(byte: u8, key: Option<KeyCode>) -> Option<Decoded> {
    match key {
        Some(k) => Some(
            if is_break(byte) {
                Decoded::Release(k)
            } else {
                Decoded::Press(k)
            },
        ),
        None => None,
    }
}

/// The decoder: what it has seen of a sequence, and the lock keys as the keyboard
/// should show them.
#[derive(Debug, Clone, Copy, PartialEq, Eq, Structural)]
pub struct Decoder {
    pub state: DecState,
    /// `E0 2A` has been seen, the first half of Print Screen.
    pub prtsc_pending: bool,
    pub caps: bool,
    pub num: bool,
    pub scroll: bool,
}

/// The byte is the make code of a lock key.
pub open spec fn is_lock(state: DecState, byte: u8) -> bool {
    state is Idle && (byte == 0x3A || byte == 0x45 || byte == 0x46)
}

/// The state behind `byte`.
pub open spec fn state_after(state: DecState, byte: u8) -> DecState {
    match (state, byte) {
        (DecState::Idle, 0xE0) => DecState::GotE0,
        (DecState::Idle, 0xE1) => DecState::PauseFirst,
        (DecState::PauseFirst, 0x1D) => DecState::PauseMake45,
        (DecState::PauseFirst, 0xF0) => DecState::PauseBreak1D,
        (DecState::PauseBreak1D, 0x1D) => DecState::PauseBreakF0,
        (DecState::PauseBreakF0, 0xF0) => DecState::PauseBreak45,
        _ => DecState::Idle,
    }
}

/// Whether the first half of Print Screen still counts behind `byte`.
pub open spec fn pending_after(d: Decoder, byte: u8) -> bool {
    match d.state {
        DecState::Idle => d.prtsc_pending && (byte == 0xE0 || byte == 0xE1),
        DecState::GotE0 => byte == 0x2A || (d.prtsc_pending && key_extended(code_of(byte)) is Some),
        _ => d.prtsc_pending,
    }
}

/// The key event that `byte` completes.
pub open spec fn event_of(d: Decoder, byte: u8) -> Option<Decoded> {
    match d.state {
        DecState::Idle => if byte == 0xE0 || byte == 0xE1 {
            None
        } else {
            way(byte, key_named(code_of(byte)))
        },
        DecState::GotE0 => if code_of(byte) == 0x37 {
            if d.prtsc_pending {
                way(byte, Some(KeyCode::PrintScreen))
            } else {
                None
            }
        } else {
            way(byte, key_extended(code_of(byte)))
        },
        DecState::PauseMake45 => if byte == 0x45 {
            Some(Decoded::Press(KeyCode::Pause))
        } else {
            None
        },
        DecState::PauseBreak45 => if byte == 0x45 {
            Some(Decoded::Release(KeyCode::Pause))
        } else {
            None
        },
        _ => None,
    }
}

/// The decoder behind `byte`.
pub open spec fn decoder_after(d: Decoder, byte: u8) -> Decoder {
    Decoder {
        state: state_after(d.state, byte),
        prtsc_pending: pending_after(d, byte),
        caps: d.caps != (is_lock(d.state, byte) && byte == 0x3A),
        num: d.num != (is_lock(d.state, byte) && byte == 0x45),
        scroll: d.scroll != (is_lock(d.state, byte) && byte == 0x46),
    }
}

/// The key of a code that no prefix announced.
pub fn named_key(code: u8) -> (r: Option<KeyCode>)
    ensures
        r == key_named(code),
{
    match code {
        0x02..=0x0D => Some(DIGIT_ROW[(code - 0x02) as usize]),
        0x10..=0x19 => Some(TOP_ROW[(code - 0x10) as usize]),
        0x1E..=0x26 => Some(HOME_ROW[(code - 0x1E) as usize]),
        0x2C..=0x32 => Some(BOTTOM_ROW[(code - 0x2C) as usize]),
        0x3B..=0x44 => Some(FN_KEYS[(code - 0x3B) as usize]),
        0x47..=0x53 => Some(KEYPAD[(code - 0x47) as usize]),
        0x01 => Some(KeyCode::Escape),
        0x0E => Some(KeyCode::Backspace),
        0x0F => Some(KeyCode::Tab),
        0x1A => Some(KeyCode::LeftBrace),
        0x1B => Some(KeyCode::RightBrace),
        0x1C => Some(KeyCode::Enter),
        0x1D => Some(KeyCode::ControlLeft),
        0x27 => Some(KeyCode::Semicolon),
        0x28 => Some(KeyCode::Apostrophe),
        0x29 => Some(KeyCode::Grave),
        0x2A => Some(KeyCode::ShiftLeft),
        0x2B => Some(KeyCode::Backslash),
        0x33 => Some(KeyCode::Comma),
        0x34 => Some(KeyCode::Dot),
        0x35 => Some(KeyCode::Slash),
        0x36 => Some(KeyCode::ShiftRight),
        0x37 => Some(KeyCode::KeypadMultiply),
        0x38 => Some(KeyCode::AltLeft),
        0x39 => Some(KeyCode::Space),
        0x3A => Some(KeyCode::CapsLock),
        0x45 => Some(KeyCode::NumLock),
        0x46 => Some(KeyCode::ScrollLock),
        0x57 => Some(KeyCode::F11),
        0x58 => Some(KeyCode::F12),
        _ => None,
    }
}

/// The key of a code behind `E0`, but for Print Screen.
pub fn extended_key(code: u8) -> (r: Option<KeyCode>)
    ensures
        r == key_extended(code),
{
    match code {
        0x1D => Some(KeyCode::ControlRight),
        0x38 => Some(KeyCode::AltRight),
        0x5B => Some(KeyCode::SuperLeft),
        0x5C => Some(KeyCode::SuperRight),
        0x5D => Some(KeyCode::Menu),
        0x35 => Some(KeyCode::KeypadDivide),
        0x1C => Some(KeyCode::KeypadEnter),
        0x48 => Some(KeyCode::ArrowUp),
        0x50 => Some(KeyCode::ArrowDown),
        0x4B => Some(KeyCode::ArrowLeft),
        0x4D => Some(KeyCode::ArrowRight),
        0x52 => Some(KeyCode::Insert),
        0x53 => Some(KeyCode::Delete),
        0x47 => Some(KeyCode::Home),
        0x4F => Some(KeyCode::End),
        0x49 => Some(KeyCode::PageUp),
        0x51 => Some(KeyCode::PageDown),
        _ => None,
    }
}

impl Decoder {
    pub fn new() -> (r: Self)
        ensures
            r == (Decoder {
                state: DecState::Idle,
                prtsc_pending: false,
                caps: false,
                num: false,
                scroll: false,
            }),
    {
        Decoder {
            state: DecState::Idle,
            prtsc_pending: false,
            caps: false,
            num: false,
            scroll: false,
        }
    }

    /// Takes one byte: the event that it completes, and whether the lock keys
    /// have changed, so that the keyboard's lights are due.
    pub fn feed(&mut self, byte: u8) -> (r: (Option<Decoded>, bool))
        ensures
            r.0 == event_of(*old(self), byte),
            r.1 == is_lock(old(self).state, byte),
            *final(self) == decoder_after(*old(self), byte),
    {
        match self.state {
            DecState::Idle => {
                if byte == 0xE0 {
                    self.state = DecState::GotE0;
                    (None, false)
                } else if byte == 0xE1 {
                    self.state = DecState::PauseFirst;
                    (None, false)
                } else if byte >= 0x80 {
                    (self.handle_break(byte - 0x80), false)
                } else {
                    self.handle_make(byte)
                }
            },
            DecState::GotE0 => {
                self.state = DecState::Idle;
                if byte >= 0x80 {
                    (self.handle_ext_break(byte - 0x80), false)
                } else {
                    (self.handle_ext_make(byte), false)
                }
            },
            DecState::PauseFirst => {
                self.state = if byte == 0x1D {
                    DecState::PauseMake45
                } else if byte == 0xF0 {
                    DecState::PauseBreak1D
                } else {
                    DecState::Idle
                };
                (None, false)
            },
            DecState::PauseMake45 => {
                self.state = DecState::Idle;
                if byte == 0x45 {
                    (Some(Decoded::Press(KeyCode::Pause)), false)
                } else {
                    (None, false)
                }
            },
            DecState::PauseBreak1D => {
                self.state = if byte == 0x1D {
                    DecState::PauseBreakF0
                } else {
                    DecState::Idle
                };
                (None, false)
            },
            DecState::PauseBreakF0 => {
                self.state = if byte == 0xF0 {
                    DecState::PauseBreak45
                } else {
                    DecState::Idle
                };
                (None, false)
            },
            DecState::PauseBreak45 => {
                self.state = DecState::Idle;
                if byte == 0x45 {
                    (Some(Decoded::Release(KeyCode::Pause)), false)
                } else {
                    (None, false)
                }
            },
        }
    }

    /// A key went down. The lock keys change state here and nowhere else.
    fn handle_make(&mut self, code: u8) -> (r: (Option<Decoded>, bool))
        requires
            old(self).state is Idle,
            code < 0x80,
        ensures
            r.0 == event_of(*old(self), code),
            r.1 == is_lock(old(self).state, code),
            *final(self) == decoder_after(*old(self), code),
    {
        self.prtsc_pending = false;
        match code {
            0x3A => {
                self.caps = !self.caps;
                (Some(Decoded::Press(KeyCode::CapsLock)), true)
            },
            0x45 => {
                self.num = !self.num;
                (Some(Decoded::Press(KeyCode::NumLock)), true)
            },
            0x46 => {
                self.scroll = !self.scroll;
                (Some(Decoded::Press(KeyCode::ScrollLock)), true)
            },
            _ => match named_key(code) {
                Some(k) => (Some(Decoded::Press(k)), false),
                None => (None, false),
            },
        }
    }

    /// A key went up. A lock key that goes up is reported like any other.
    fn handle_break(&mut self, code: u8) -> (r: Option<Decoded>)
        requires
            code < 0x80,
        ensures
            r == (match key_named(code) {
                Some(k) => Some(Decoded::Release(k)),
                None => None,
            }),
            *final(self) == (Decoder { prtsc_pending: false, ..*old(self) }),
    {
        self.prtsc_pending = false;
        match named_key(code) {
            Some(k) => Some(Decoded::Release(k)),
            None => None,
        }
    }

    /// An extended key went down.
    fn handle_ext_make(&mut self, code: u8) -> (r: Option<Decoded>)
        requires
            code < 0x80,
        ensures
            r == (if code == 0x37 {
                if old(self).prtsc_pending {
                    Some(Decoded::Press(KeyCode::PrintScreen))
                } else {
                    None
                }
            } else {
                match key_extended(code) {
                    Some(k) => Some(Decoded::Press(k)),
                    None => None,
                }
            }),
            *final(self) == (Decoder {
                prtsc_pending: code == 0x2A || (old(self).prtsc_pending && key_extended(
                    code,
                ) is Some),
                ..*old(self)
            }),
    {
        match code {
            0x2A => {
                self.prtsc_pending = true;
                None
            },
            0x37 => if self.prtsc_pending {
                self.prtsc_pending = false;
                Some(Decoded::Press(KeyCode::PrintScreen))
            } else {
                None
            },
            _ => match extended_key(code) {
                Some(k) => Some(Decoded::Press(k)),
                None => {
                    self.prtsc_pending = false;
                    None
                },
            },
        }
    }

    /// An extended key went up.
    fn handle_ext_break(&mut self, code: u8) -> (r: Option<Decoded>)
        requires
            code < 0x80,
        ensures
            r == (if code == 0x37 {
                if old(self).prtsc_pending {
                    Some(Decoded::Release(KeyCode::PrintScreen))
                } else {
                    None
                }
            } else {
                match key_extended(code) {
                    Some(k) => Some(Decoded::Release(k)),
                    None => None,
                }
            }),
            *final(self) == (Decoder {
                prtsc_pending: old(self).prtsc_pending && key_extended(code) is Some,
                ..*old(self)
            }),
    {
        match code {
            0x37 => if self.prtsc_pending {
                self.prtsc_pending = false;
                Some(Decoded::Release(KeyCode::PrintScreen))
            } else {
                None
            },
            _ => match extended_key(code) {
                Some(k) => Some(Decoded::Release(k)),
                None => {
                    self.prtsc_pending = false;
                    None
                },
            },
        }
    }
}

/// Every byte sequence, decoded: the decoder that is left and the events, in
/// order.
pub open spec fn decoded_all(d: Decoder, bytes: Seq<u8>) -> (Decoder, Seq<Decoded>)
    decreases bytes.len(),
{
    if bytes.len() == 0 {
        (d, Seq::empty())
    } else {
        let (before, events) = decoded_all(d, bytes.drop_last());
        (
            decoder_after(before, bytes.last()),
            match event_of(before, bytes.last()) {
                Some(e) => events.push(e),
                None => events,
            },
        )
    }
}

/// A key that goes down and up again gives a press and a release of one and the
/// same key, and leaves no half of a sequence behind.
pub proof fn law_press_and_release(d: Decoder, code: u8)
    requires
        d.state is Idle,
        key_named(code) is Some,
    ensures
        event_of(d, code) == Some(Decoded::Press(key_named(code)->0)),
        event_of(decoder_after(d, code), (code + 0x80) as u8) == Some(
            Decoded::Release(key_named(code)->0),
        ),
        decoder_after(decoder_after(d, code), (code + 0x80) as u8).state is Idle,
{
    assert(code_of(code) == code);
    assert(code_of((code + 0x80) as u8) == code);
}

/// From rest, `E1 1D 45` is Pause going down and `E1 F0 1D F0 45` is Pause going
/// up; neither gives any other event or changes a lock.
pub proof fn law_pause(d: Decoder)
    requires
        d.state is Idle,
    ensures
        decoded_all(d, seq![0xE1u8, 0x1Du8, 0x45u8]) == (
            d,
            seq![Decoded::Press(KeyCode::Pause)],
        ),
        decoded_all(d, seq![0xE1u8, 0xF0u8, 0x1Du8, 0xF0u8, 0x45u8]) == (
            d,
            seq![Decoded::Release(KeyCode::Pause)],
        ),
{
    reveal_with_fuel(decoded_all, 6);
    let down = seq![0xE1u8, 0x1Du8, 0x45u8];
    let up = seq![0xE1u8, 0xF0u8, 0x1Du8, 0xF0u8, 0x45u8];
    assert(down.drop_last() =~= seq![0xE1u8, 0x1Du8]);
    assert(seq![0xE1u8, 0x1Du8].drop_last() =~= seq![0xE1u8]);
    assert(seq![0xE1u8].drop_last() =~= Seq::<u8>::empty());
    assert(up.drop_last() =~= seq![0xE1u8, 0xF0u8, 0x1Du8, 0xF0u8]);
    assert(seq![0xE1u8, 0xF0u8, 0x1Du8, 0xF0u8].drop_last() =~= seq![0xE1u8, 0xF0u8, 0x1Du8]);
    assert(seq![0xE1u8, 0xF0u8, 0x1Du8].drop_last() =~= seq![0xE1u8, 0xF0u8]);
    assert(seq![0xE1u8, 0xF0u8].drop_last() =~= seq![0xE1u8]);
    assert(Seq::<Decoded>::empty().push(Decoded::Press(KeyCode::Pause)) =~= seq![
        Decoded::Press(KeyCode::Pause),
    ]);
    assert(Seq::<Decoded>::empty().push(Decoded::Release(KeyCode::Pause)) =~= seq![
        Decoded::Release(KeyCode::Pause),
    ]);
}

} // verus!
