//! Which bytes a keyboard sends for its keys, and what is made of them.

use vstd::prelude::*;

use crate::drivers::ps2::decoder;
use crate::drivers::ps2::decoder::{Decoded, Decoder, KeyCode};
use crate::drivers::ps2::keyboard;

verus! {

/// The code that a keyboard sends for a key that needs no prefix.
pub open spec fn plain_code(k: KeyCode) -> Option<u8> {
    match k {
        KeyCode::Escape => Some(0x01),
        KeyCode::Digit1 => Some(0x02),
        KeyCode::Digit2 => Some(0x03),
        KeyCode::Digit3 => Some(0x04),
        KeyCode::Digit4 => Some(0x05),
        KeyCode::Digit5 => Some(0x06),
        KeyCode::Digit6 => Some(0x07),
        KeyCode::Digit7 => Some(0x08),
        KeyCode::Digit8 => Some(0x09),
        KeyCode::Digit9 => Some(0x0A),
        KeyCode::Digit0 => Some(0x0B),
        KeyCode::Minus => Some(0x0C),
        KeyCode::Equal => Some(0x0D),
        KeyCode::Backspace => Some(0x0E),
        KeyCode::Tab => Some(0x0F),
        KeyCode::Q => Some(0x10),
        KeyCode::W => Some(0x11),
        KeyCode::E => Some(0x12),
        KeyCode::R => Some(0x13),
        KeyCode::T => Some(0x14),
        KeyCode::Y => Some(0x15),
        KeyCode::U => Some(0x16),
        KeyCode::I => Some(0x17),
        KeyCode::O => Some(0x18),
        KeyCode::P => Some(0x19),
        KeyCode::LeftBrace => Some(0x1A),
        KeyCode::RightBrace => Some(0x1B),
        KeyCode::Enter => Some(0x1C),
        KeyCode::ControlLeft => Some(0x1D),
        KeyCode::A => Some(0x1E),
        KeyCode::S => Some(0x1F),
        KeyCode::D => Some(0x20),
        KeyCode::F => Some(0x21),
        KeyCode::G => Some(0x22),
        KeyCode::H => Some(0x23),
        KeyCode::J => Some(0x24),
        KeyCode::K => Some(0x25),
        KeyCode::L => Some(0x26),
        KeyCode::Semicolon => Some(0x27),
        KeyCode::Apostrophe => Some(0x28),
        KeyCode::Grave => Some(0x29),
        KeyCode::ShiftLeft => Some(0x2A),
        KeyCode::Backslash => Some(0x2B),
        KeyCode::Z => Some(0x2C),
        KeyCode::X => Some(0x2D),
        KeyCode::C => Some(0x2E),
        KeyCode::V => Some(0x2F),
        KeyCode::B => Some(0x30),
        KeyCode::N => Some(0x31),
        KeyCode::M => Some(0x32),
        KeyCode::Comma => Some(0x33),
        KeyCode::Dot => Some(0x34),
        KeyCode::Slash => Some(0x35),
        KeyCode::ShiftRight => Some(0x36),
        KeyCode::KeypadMultiply => Some(0x37),
        KeyCode::AltLeft => Some(0x38),
        KeyCode::Space => Some(0x39),
        KeyCode::CapsLock => Some(0x3A),
        KeyCode::F1 => Some(0x3B),
        KeyCode::F2 => Some(0x3C),
        KeyCode::F3 => Some(0x3D),
        KeyCode::F4 => Some(0x3E),
        KeyCode::F5 => Some(0x3F),
        KeyCode::F6 => Some(0x40),
        KeyCode::F7 => Some(0x41),
        KeyCode::F8 => Some(0x42),
        KeyCode::F9 => Some(0x43),
        KeyCode::F10 => Some(0x44),
        KeyCode::NumLock => Some(0x45),
        KeyCode::ScrollLock => Some(0x46),
        KeyCode::Keypad7 => Some(0x47),
        KeyCode::Keypad8 => Some(0x48),
        KeyCode::Keypad9 => Some(0x49),
        KeyCode::KeypadSubtract => Some(0x4A),
        KeyCode::Keypad4 => Some(0x4B),
        KeyCode::Keypad5 => Some(0x4C),
        KeyCode::Keypad6 => Some(0x4D),
        KeyCode::KeypadAdd => Some(0x4E),
        KeyCode::Keypad1 => Some(0x4F),
        KeyCode::Keypad2 => Some(0x50),
        KeyCode::Keypad3 => Some(0x51),
        KeyCode::Keypad0 => Some(0x52),
        KeyCode::KeypadDecimal => Some(0x53),
        KeyCode::F11 => Some(0x57),
        KeyCode::F12 => Some(0x58),
        _ => None,
    }
}

/// The code that a keyboard sends behind `E0`.
pub open spec fn extended_code(k: KeyCode) -> Option<u8> {
    match k {
        KeyCode::KeypadEnter => Some(0x1C),
        KeyCode::ControlRight => Some(0x1D),
        KeyCode::KeypadDivide => Some(0x35),
        KeyCode::AltRight => Some(0x38),
        KeyCode::Home => Some(0x47),
        KeyCode::ArrowUp => Some(0x48),
        KeyCode::PageUp => Some(0x49),
        KeyCode::ArrowLeft => Some(0x4B),
        KeyCode::ArrowRight => Some(0x4D),
        KeyCode::End => Some(0x4F),
        KeyCode::ArrowDown => Some(0x50),
        KeyCode::PageDown => Some(0x51),
        KeyCode::Insert => Some(0x52),
        KeyCode::Delete => Some(0x53),
        KeyCode::SuperLeft => Some(0x5B),
        KeyCode::SuperRight => Some(0x5C),
        KeyCode::Menu => Some(0x5D),
        _ => None,
    }
}

/// The rows of keys, spelled out.
proof fn lemma_rows()
    ensures
        decoder::DIGIT_ROW@[0] == KeyCode::Digit1,
        decoder::DIGIT_ROW@[1] == KeyCode::Digit2,
        decoder::DIGIT_ROW@[2] == KeyCode::Digit3,
        decoder::DIGIT_ROW@[3] == KeyCode::Digit4,
        decoder::DIGIT_ROW@[4] == KeyCode::Digit5,
        decoder::DIGIT_ROW@[5] == KeyCode::Digit6,
        decoder::DIGIT_ROW@[6] == KeyCode::Digit7,
        decoder::DIGIT_ROW@[7] == KeyCode::Digit8,
        decoder::DIGIT_ROW@[8] == KeyCode::Digit9,
        decoder::DIGIT_ROW@[9] == KeyCode::Digit0,
        decoder::DIGIT_ROW@[10] == KeyCode::Minus,
        decoder::DIGIT_ROW@[11] == KeyCode::Equal,
        decoder::TOP_ROW@[0] == KeyCode::Q,
        decoder::TOP_ROW@[1] == KeyCode::W,
        decoder::TOP_ROW@[2] == KeyCode::E,
        decoder::TOP_ROW@[3] == KeyCode::R,
        decoder::TOP_ROW@[4] == KeyCode::T,
        decoder::TOP_ROW@[5] == KeyCode::Y,
        decoder::TOP_ROW@[6] == KeyCode::U,
        decoder::TOP_ROW@[7] == KeyCode::I,
        decoder::TOP_ROW@[8] == KeyCode::O,
        decoder::TOP_ROW@[9] == KeyCode::P,
        decoder::HOME_ROW@[0] == KeyCode::A,
        decoder::HOME_ROW@[1] == KeyCode::S,
        decoder::HOME_ROW@[2] == KeyCode::D,
        decoder::HOME_ROW@[3] == KeyCode::F,
        decoder::HOME_ROW@[4] == KeyCode::G,
        decoder::HOME_ROW@[5] == KeyCode::H,
        decoder::HOME_ROW@[6] == KeyCode::J,
        decoder::HOME_ROW@[7] == KeyCode::K,
        decoder::HOME_ROW@[8] == KeyCode::L,
        decoder::BOTTOM_ROW@[0] == KeyCode::Z,
        decoder::BOTTOM_ROW@[1] == KeyCode::X,
        decoder::BOTTOM_ROW@[2] == KeyCode::C,
        decoder::BOTTOM_ROW@[3] == KeyCode::V,
        decoder::BOTTOM_ROW@[4] == KeyCode::B,
        decoder::BOTTOM_ROW@[5] == KeyCode::N,
        decoder::BOTTOM_ROW@[6] == KeyCode::M,
        decoder::FN_KEYS@[0] == KeyCode::F1,
        decoder::FN_KEYS@[1] == KeyCode::F2,
        decoder::FN_KEYS@[2] == KeyCode::F3,
        decoder::FN_KEYS@[3] == KeyCode::F4,
        decoder::FN_KEYS@[4] == KeyCode::F5,
        decoder::FN_KEYS@[5] == KeyCode::F6,
        decoder::FN_KEYS@[6] == KeyCode::F7,
        decoder::FN_KEYS@[7] == KeyCode::F8,
        decoder::FN_KEYS@[8] == KeyCode::F9,
        decoder::FN_KEYS@[9] == KeyCode::F10,
        decoder::KEYPAD@[0] == KeyCode::Keypad7,
        decoder::KEYPAD@[1] == KeyCode::Keypad8,
        decoder::KEYPAD@[2] == KeyCode::Keypad9,
        decoder::KEYPAD@[3] == KeyCode::KeypadSubtract,
        decoder::KEYPAD@[4] == KeyCode::Keypad4,
        decoder::KEYPAD@[5] == KeyCode::Keypad5,
        decoder::KEYPAD@[6] == KeyCode::Keypad6,
        decoder::KEYPAD@[7] == KeyCode::KeypadAdd,
        decoder::KEYPAD@[8] == KeyCode::Keypad1,
        decoder::KEYPAD@[9] == KeyCode::Keypad2,
        decoder::KEYPAD@[10] == KeyCode::Keypad3,
        decoder::KEYPAD@[11] == KeyCode::Keypad0,
        decoder::KEYPAD@[12] == KeyCode::KeypadDecimal,
{
}

/// The code that is sent for a key is taken for that key, and no other code is.
pub proof fn law_codes_of_keys(k: KeyCode, code: u8)
    ensures
        decoder::key_named(code) == Some(k) <==> plain_code(k) == Some(code),
        decoder::key_extended(code) == Some(k) <==> extended_code(k) == Some(code),
{
    lemma_rows();
}

/// From rest, a key without a prefix gives its press for its code, and its release for its
/// code with the highest bit set.
pub proof fn law_plain_key(d: Decoder, k: KeyCode)
    requires
        d.state is Idle,
        plain_code(k) is Some,
    ensures
        decoder::event_of(d, plain_code(k)->0) == Some(Decoded::Press(k)),
        decoder::event_of(d, (plain_code(k)->0 + 128) as u8) == Some(Decoded::Release(k)),
        decoder::decoder_after(d, plain_code(k)->0).state is Idle,
        decoder::decoder_after(d, (plain_code(k)->0 + 128) as u8).state is Idle,
{
    law_codes_of_keys(k, plain_code(k)->0);
}

/// From rest, a key behind `E0` gives its press for its code, and its release for its code with
/// the highest bit set; the prefix gives nothing.
pub proof fn law_extended_key(d: Decoder, k: KeyCode)
    requires
        d.state is Idle,
        extended_code(k) is Some,
    ensures
        decoder::event_of(d, 0xE0) is None,
        ({
            let e = decoder::decoder_after(d, 0xE0);
            &&& decoder::event_of(e, extended_code(k)->0) == Some(Decoded::Press(k))
            &&& decoder::event_of(e, (extended_code(k)->0 + 128) as u8) == Some(
                Decoded::Release(k),
            )
            &&& decoder::decoder_after(e, extended_code(k)->0).state is Idle
            &&& decoder::decoder_after(e, (extended_code(k)->0 + 128) as u8).state is Idle
        }),
{
    law_codes_of_keys(k, extended_code(k)->0);
}

/// From rest, `E0 2A E0 37` is Print Screen going down; without `E0 2A` before it, `E0 37` is
/// nothing.
pub proof fn law_print_screen(d: Decoder)
    requires
        d.state is Idle,
    ensures
        ({
            let a = decoder::decoder_after(d, 0xE0);
            let b = decoder::decoder_after(a, 0x2A);
            let c = decoder::decoder_after(b, 0xE0);
            &&& decoder::event_of(d, 0xE0) is None
            &&& decoder::event_of(a, 0x2A) is None
            &&& decoder::event_of(b, 0xE0) is None
            &&& decoder::event_of(c, 0x37) == Some(Decoded::Press(KeyCode::PrintScreen))
            &&& decoder::decoder_after(c, 0x37).state is Idle
            &&& !decoder::decoder_after(c, 0x37).prtsc_pending
            &&& !d.prtsc_pending ==> decoder::event_of(a, 0x37) is None
        }),
{
}

/// A lock changes when its key goes down from rest, and at no other time; no other lock changes
/// with it.
pub proof fn law_locks(d: Decoder, byte: u8)
    ensures
        ({
            let a = decoder::decoder_after(d, byte);
            &&& a.caps != d.caps <==> d.state is Idle && Some(byte) == plain_code(
                KeyCode::CapsLock,
            )
            &&& a.num != d.num <==> d.state is Idle && Some(byte) == plain_code(KeyCode::NumLock)
            &&& a.scroll != d.scroll <==> d.state is Idle && Some(byte) == plain_code(
                KeyCode::ScrollLock,
            )
        }),
{
}

/// What does not go on with a sequence ends it.
pub proof fn law_sequences_end(d: Decoder, byte: u8)
    requires
        !(d.state is Idle),
        byte != 0x1D,
        byte != 0xF0,
    ensures
        decoder::decoder_after(d, byte).state is Idle,
{
}

/// The lights say of each lock whether it is on: scroll in bit 0, numbers in bit 1, capitals in
/// bit 2.
pub proof fn law_lights(caps: bool, num: bool, scroll: bool)
    ensures
        keyboard::led_byte(caps, num, scroll) % 2 == 1 <==> scroll,
        keyboard::led_byte(caps, num, scroll) / 2 % 2 == 1 <==> num,
        keyboard::led_byte(caps, num, scroll) / 4 % 2 == 1 <==> caps,
        0 <= keyboard::led_byte(caps, num, scroll) < 8,
{
}

proof fn lemma_three_parts(
    a: Seq<keyboard::Output>,
    b: Seq<keyboard::Output>,
    c: Seq<keyboard::Output>,
)
    ensures
        (a + b) + c == a + (b + c),
{
    assert((a + b) + c =~= a + (b + c));
}

/// What bytes lead to is what the first of them lead to, and then what the others do from
/// where the decoder stands behind those.
#[verifier::rlimit(40)]
pub proof fn law_bytes_in_two_parts(id: u32, d: Decoder, a: Seq<u8>, b: Seq<u8>)
    ensures
        keyboard::outputs_all(id, d, a + b) == keyboard::outputs_all(id, d, a)
            + keyboard::outputs_all(id, keyboard::decoder_behind(d, a), b),
        keyboard::decoder_behind(d, a + b) == keyboard::decoder_behind(
            keyboard::decoder_behind(d, a),
            b,
        ),
    decreases a.len(),
{
    if a.len() == 0 {
        assert(a + b =~= b);
        assert(keyboard::outputs_all(id, d, a) =~= Seq::empty());
    } else {
        assert((a + b)[0] == a[0]);
        assert((a + b).skip(1) =~= a.skip(1) + b);
        let e = decoder::decoder_after(d, a[0]);
        law_bytes_in_two_parts(id, e, a.skip(1), b);
        let first = keyboard::outputs_of(id, d, a[0]);
        let more = keyboard::outputs_all(id, e, a.skip(1));
        let rest = keyboard::outputs_all(id, keyboard::decoder_behind(e, a.skip(1)), b);
        lemma_three_parts(first, more, rest);
        assert(keyboard::outputs_all(id, d, a + b) == first + keyboard::outputs_all(
            id,
            e,
            (a + b).skip(1),
        ));
    }
}

/// A keyboard with a number says of a key that goes down and up again that it did, and
/// nothing of it without one.
pub proof fn law_key_is_reported(id: u32, d: Decoder, k: KeyCode)
    requires
        d.state is Idle,
        plain_code(k) is Some,
        k != KeyCode::CapsLock,
        k != KeyCode::NumLock,
        k != KeyCode::ScrollLock,
    ensures
        ({
            let bytes = seq![plain_code(k)->0, (plain_code(k)->0 + 128) as u8];
            keyboard::outputs_all(id, d, bytes) == if id == 0 {
                Seq::empty()
            } else {
                seq![
                    keyboard::Output::Event { device_id: id, code: k, value: 1 },
                    keyboard::Output::Event { device_id: id, code: k, value: 0 },
                ]
            }
        }),
{
    law_plain_key(d, k);
    let (down, up) = (plain_code(k)->0, (plain_code(k)->0 + 128) as u8);
    let bytes = seq![down, up];
    let e = decoder::decoder_after(d, down);
    law_plain_key(e, k);
    assert(bytes.skip(1) =~= seq![up]);
    assert(seq![up].skip(1) =~= Seq::<u8>::empty());
    assert(keyboard::outputs_all(id, decoder::decoder_after(e, up), Seq::empty())
        =~= Seq::empty());
    assert(keyboard::outputs_all(id, e, seq![up]) =~= keyboard::outputs_of(id, e, up));
    assert(keyboard::outputs_all(id, d, bytes) =~= keyboard::outputs_of(id, d, down)
        + keyboard::outputs_of(id, e, up));
}

} // verus!
