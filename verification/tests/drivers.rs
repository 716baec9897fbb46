use kstorage::drivers::ps2::decoder::{
    extended_key, named_key, DecState, Decoded, Decoder, KeyCode,
};
use kstorage::drivers::ps2::ring::{SpScRing, RAW_CAPACITY};
use kstorage::drivers::rtc::{
    bcd_to_binary, days_from_civil, next_poll, read_epoch_secs, RtcPoll, RtcRegisters, MAX_POLLS,
};
use kstorage::drivers::serial::{
    dump_put_hex, dump_put_u64, dump_putc, dump_puts, try_dump_last_lines, CaptureLog, SerialPort,
    CAPTURE_RING_CAP,
};

fn captured(log: &CaptureLog) -> Vec<u8> {
    let mut v = Vec::new();
    log.capture_bytes(&mut v);
    v
}

#[test]
fn ring_hands_bytes_out_in_order() {
    let mut r = SpScRing::new();
    assert_eq!(r.pop(), None);
    let mut accepted = 0;
    for i in 0..RAW_CAPACITY + 3 {
        if r.push(i as u8) {
            accepted += 1;
        }
    }
    assert!(accepted == RAW_CAPACITY || accepted == RAW_CAPACITY - 1);
    for i in 0..accepted {
        assert_eq!(r.pop(), Some(i as u8));
    }
    assert_eq!(r.pop(), None);
    assert!(r.push(9));
    assert_eq!(r.pop(), Some(9));
}

fn feed_all(d: &mut Decoder, bytes: &[u8]) -> Vec<Decoded> {
    let mut out = Vec::new();
    for b in bytes {
        if let (Some(k), _) = d.feed(*b) {
            out.push(k);
        }
    }
    out
}

#[test]
fn decoder_press_and_release() {
    let mut d = Decoder::new();
    assert_eq!(feed_all(&mut d, &[0x1E, 0x9E]), vec![
        Decoded::Press(KeyCode::A),
        Decoded::Release(KeyCode::A)
    ]);
    assert_eq!(feed_all(&mut d, &[0xE0, 0x48, 0xE0, 0xC8]), vec![
        Decoded::Press(KeyCode::ArrowUp),
        Decoded::Release(KeyCode::ArrowUp)
    ]);
    assert_eq!(d.state, DecState::Idle);
}

#[test]
fn decoder_pause_is_one_press_and_one_release() {
    let mut d = Decoder::new();
    assert_eq!(feed_all(&mut d, &[0xE1, 0x1D, 0x45]), vec![Decoded::Press(KeyCode::Pause)]);
    assert_eq!(d.state, DecState::Idle);
    assert_eq!(
        feed_all(&mut d, &[0xE1, 0xF0, 0x1D, 0xF0, 0x45]),
        vec![Decoded::Release(KeyCode::Pause)]
    );
    assert_eq!(d.state, DecState::Idle);
}

#[test]
fn decoder_lock_keys_ask_for_lights() {
    let mut d = Decoder::new();
    let (key, sync) = d.feed(0x3A);
    assert_eq!(key, Some(Decoded::Press(KeyCode::CapsLock)));
    assert!(sync);
    assert!(d.caps);
    let (_, sync) = d.feed(0xBA);
    assert!(!sync);
    d.feed(0x3A);
    assert!(!d.caps);
}

#[test]
fn key_tables() {
    assert_eq!(named_key(0x01), Some(KeyCode::Escape));
    assert_eq!(named_key(0x0B), Some(KeyCode::Digit0));
    assert_eq!(named_key(0x10), Some(KeyCode::Q));
    assert_eq!(named_key(0x39), Some(KeyCode::Space));
    assert_eq!(named_key(0x58), Some(KeyCode::F12));
    assert_eq!(named_key(0x00), None);
    assert_eq!(extended_key(0x1C), Some(KeyCode::KeypadEnter));
    assert_eq!(extended_key(0x53), Some(KeyCode::Delete));
    assert_eq!(extended_key(0x02), None);
}

#[test]
fn clock_registers() {
    let regs = RtcRegisters {
        status_a: 0x26,
        status_b: 0x02,
        seconds: 0x59,
        minutes: 0x34,
        hours: 0x12,
        day: 0x29,
        month: 0x02,
        year: 0x24,
        century: 0x20,
    };
    let t = regs.read_all();
    assert_eq!((t.year, t.month, t.day, t.hour, t.min, t.sec), (2024, 2, 29, 12, 34, 59));
    assert_eq!(read_epoch_secs(&regs), Some(1_709_210_099));
    let bad = RtcRegisters { month: 0x13, ..regs };
    assert_eq!(read_epoch_secs(&bad), None);
    let early = RtcRegisters { year: 0x69, century: 0x19, ..regs };
    assert_eq!(read_epoch_secs(&early), None);
}

#[test]
fn clock_twelve_hour_mode() {
    let regs = RtcRegisters {
        status_a: 0,
        status_b: 0x00,
        seconds: 0,
        minutes: 0,
        hours: 0x81,
        day: 1,
        month: 1,
        year: 0x00,
        century: 0x20,
    };
    assert_eq!(regs.read_all().hour, 13);
    assert_eq!(RtcRegisters { hours: 0x12, ..regs }.read_all().hour, 0);
    assert_eq!(RtcRegisters { hours: 0x92, ..regs }.read_all().hour, 12);
}

#[test]
fn clock_arithmetic() {
    assert_eq!(bcd_to_binary(0x59), 59);
    assert_eq!(days_from_civil(1970, 1, 1), 0);
    assert_eq!(days_from_civil(2000, 3, 1), 11017);
    assert_eq!(days_from_civil(2024, 2, 29), 19782);
    assert!(days_from_civil(2023, 12, 31) < days_from_civil(2024, 1, 1));
    assert!(next_poll(0, 0x80) == RtcPoll::Wait);
    assert!(next_poll(0, 0x7F) == RtcPoll::Read);
    assert!(next_poll(MAX_POLLS, 0x80) == RtcPoll::Read);
}

#[test]
fn log_ring_keeps_the_last_bytes() {
    let mut log = CaptureLog::new();
    for i in 0..CAPTURE_RING_CAP + 5 {
        log.push((i % 256) as u8);
    }
    let v = captured(&log);
    assert_eq!(v.len(), CAPTURE_RING_CAP);
    assert_eq!(v[0], 5);
    assert_eq!(v[CAPTURE_RING_CAP - 1], ((CAPTURE_RING_CAP + 4) % 256) as u8);
    log.switch_to_growable();
    log.push(0xAA);
    let w = captured(&log);
    assert_eq!(w.len(), CAPTURE_RING_CAP + 1);
    assert_eq!(w[..CAPTURE_RING_CAP], v[..]);
    assert_eq!(w[CAPTURE_RING_CAP], 0xAA);
}

#[test]
fn serial_lines_carry_a_prefix() {
    let mut p = SerialPort::new();
    assert_eq!(p.puts("one\ntwo\n", Some(3)), b"[CPU(3)] one\n[CPU(3)] two\n".to_vec());
    assert_eq!(p.puts("three", Some(12)), b"[CPU(12)] three".to_vec());
    assert_eq!(p.puts(" four\n", Some(12)), b" four\n".to_vec());
    assert_eq!(p.puts("early\n", None), b"early\n".to_vec());
    assert_eq!(p.puts("", Some(1)), b"".to_vec());
    assert_eq!(p.puts("five\n", Some(1)), b"[CPU(1)] five\n".to_vec());
    assert_eq!(p.putc(b'x'), b"x".to_vec());
    assert_eq!(
        captured(&p.log),
        b"[CPU(3)] one\n[CPU(3)] two\n[CPU(12)] three four\nearly\n[CPU(1)] five\nx".to_vec()
    );
}

#[test]
fn serial_numbers() {
    let mut p = SerialPort::new();
    assert_eq!(p.put_u64(0), b"0".to_vec());
    assert_eq!(p.put_u64(u64::MAX), b"18446744073709551615".to_vec());
    assert_eq!(p.put_hex(0xDEAD), dump_put_hex(0xDEAD));
    assert_eq!(dump_put_u64(42), b"42".to_vec());
    assert_eq!(dump_putc(b'!'), b"!".to_vec());
    assert_eq!(dump_puts("hi"), b"hi".to_vec());
}

#[test]
fn log_dump_shows_the_last_lines() {
    let mut log = CaptureLog::new();
    log.switch_to_growable();
    for c in b"one\ntwo\nthree\n" {
        log.push(*c);
    }
    assert_eq!(log.dump_last_lines(2), "two\nthree\n");
    assert_eq!(log.dump_last_lines(9), "one\ntwo\nthree\n");
    assert_eq!(log.dump_last_lines(0), "");
    for c in b"four" {
        log.push(*c);
    }
    assert_eq!(log.dump_last_lines(2), "three\nfour\n");
    let mut w = String::from("> ");
    assert!(!try_dump_last_lines(None, &mut w, 2));
    assert_eq!(w, "> ");
    assert!(try_dump_last_lines(Some(&log), &mut w, 1));
    assert_eq!(w, "> four\n");
}
