use uc8159::Color;
use uc8159::Config;
use uc8159::Display;
use uc8159::FailingTransport;
use uc8159::Level;
use uc8159::RecordedEvent;
use uc8159::RecordingTransport;
use uc8159::TransportError;

fn shown_log(border: Color, fill: Option<Color>) -> Vec<RecordedEvent> {
    let mut d = Display::new(RecordingTransport::new(), Config { border_color: border });
    if let Some(c) = fill {
        d.fill(c);
    }
    d.show().expect("recording transport never fails");
    d.into_transport().log
}

/// The command code bytes in transmission order: each is the one-byte
/// write immediately after the select line goes low.
fn command_codes(log: &[RecordedEvent]) -> Vec<u8> {
    let mut codes = Vec::new();
    for i in 0..log.len() {
        if let RecordedEvent::Select(Level::Low) = log[i] {
            if let RecordedEvent::Write(bytes) = &log[i + 1] {
                assert_eq!(bytes.len(), 1, "a command code is a single byte");
                codes.push(bytes[0]);
            } else {
                panic!("select-low must be followed by a command code write");
            }
        }
    }
    codes
}

#[test]
fn show_emits_commands_in_documented_order() {
    let log = shown_log(Color::Black, None);
    let codes = command_codes(&log);
    assert_eq!(
        codes,
        vec![0x61, 0x00, 0x01, 0x30, 0x41, 0x50, 0x60, 0x65, 0xE3, 0x03, 0x10, 0x04, 0x12, 0x02]
    );
}

#[test]
fn show_starts_with_reset_pulse_and_busy_wait() {
    let log = shown_log(Color::Black, None);
    assert_eq!(log[0], RecordedEvent::Reset(Level::Low));
    assert_eq!(log[1], RecordedEvent::Delay(100));
    assert_eq!(log[2], RecordedEvent::Reset(Level::High));
    assert_eq!(log[3], RecordedEvent::Delay(100));
    assert_eq!(log[4], RecordedEvent::PollBusy(Level::High));
}

#[test]
fn show_busy_waits_after_transfer_power_refresh_and_off() {
    let log = shown_log(Color::Black, None);
    // After each of DTM1 (0x10), PON (0x04), DRF (0x12) and POF (0x02),
    // the next command byte must be preceded by a busy poll.
    for code in [0x10u8, 0x04, 0x12, 0x02] {
        let cmd_at = log
            .iter()
            .position(|e| matches!(e, RecordedEvent::Write(b) if b.as_slice() == [code]))
            .expect("command present");
        let next_poll = log[cmd_at..]
            .iter()
            .position(|e| matches!(e, RecordedEvent::PollBusy(_)))
            .expect("busy poll after command");
        // No later command code may appear before that poll.
        for e in &log[cmd_at + 1..cmd_at + next_poll] {
            assert!(!matches!(e, RecordedEvent::Select(Level::Low)));
        }
        assert_eq!(log[cmd_at + next_poll], RecordedEvent::PollBusy(Level::High));
    }
}

#[test]
fn configuration_payloads_are_bit_exact() {
    let log = shown_log(Color::Black, None);
    let payload_after = |code: u8| -> Vec<u8> {
        let at = log
            .iter()
            .position(|e| matches!(e, RecordedEvent::Write(b) if b.as_slice() == [code]))
            .unwrap();
        assert_eq!(log[at + 1], RecordedEvent::Select(Level::High));
        match &log[at + 2] {
            RecordedEvent::Write(b) => b.clone(),
            other => panic!("expected payload write, got {:?}", other),
        }
    };
    assert_eq!(payload_after(0x61), vec![0x02, 0x58, 0x01, 0xC0]);
    assert_eq!(payload_after(0x00), vec![0xEF, 0x08]);
    assert_eq!(payload_after(0x01), vec![0x37, 0x00, 0x23, 0x23]);
    assert_eq!(payload_after(0x30), vec![0x3C]);
    assert_eq!(payload_after(0x41), vec![0x00]);
    assert_eq!(payload_after(0x60), vec![0x22]);
    assert_eq!(payload_after(0x65), vec![0x00]);
    assert_eq!(payload_after(0xE3), vec![0xAA]);
    assert_eq!(payload_after(0x03), vec![0x00]);
}

#[test]
fn cdi_payload_carries_border_color() {
    for (border, expected) in [
        (Color::Black, 0x17u8),
        (Color::White, (1 << 5) | 0x17),
        (Color::Clean, (7 << 5) | 0x17),
    ] {
        let log = shown_log(border, None);
        let at = log
            .iter()
            .position(|e| matches!(e, RecordedEvent::Write(b) if b.as_slice() == [0x50]))
            .unwrap();
        match &log[at + 2] {
            RecordedEvent::Write(b) => assert_eq!(b.as_slice(), [expected]),
            other => panic!("expected CDI payload, got {:?}", other),
        }
    }
}

#[test]
fn framebuffer_transfer_is_chunked_into_33_writes() {
    let log = shown_log(Color::Black, Some(Color::Red));
    let dtm1_at = log
        .iter()
        .position(|e| matches!(e, RecordedEvent::Write(b) if b.as_slice() == [0x10]))
        .unwrap();
    assert_eq!(log[dtm1_at + 1], RecordedEvent::Select(Level::High));
    let mut chunks: Vec<Vec<u8>> = Vec::new();
    let mut i = dtm1_at + 2;
    while let RecordedEvent::Write(b) = &log[i] {
        chunks.push(b.clone());
        i += 1;
    }
    // One select-line raise, then ceil(134400 / 4096) = 33 writes, then
    // the busy poll; the next command lowers the select line afterwards.
    assert_eq!(chunks.len(), 33);
    assert_eq!(log[i], RecordedEvent::PollBusy(Level::High));
    for chunk in &chunks[..32] {
        assert_eq!(chunk.len(), 4096);
    }
    assert_eq!(chunks[32].len(), 134400 - 32 * 4096);
    let flat: Vec<u8> = chunks.concat();
    assert_eq!(flat.len(), 134400);
    let red = Color::Red.code();
    for b in flat {
        assert_eq!(b, (red << 4) | red);
    }
}

#[test]
fn transfer_payload_reflects_pixel_writes() {
    let mut d = Display::new(RecordingTransport::new(), Config { border_color: Color::Black });
    d.set_pixel(0, 0, Color::White);
    d.set_pixel(1, 0, Color::Green);
    d.show().unwrap();
    let log = d.into_transport().log;
    let dtm1_at = log
        .iter()
        .position(|e| matches!(e, RecordedEvent::Write(b) if b.as_slice() == [0x10]))
        .unwrap();
    match &log[dtm1_at + 2] {
        RecordedEvent::Write(b) => {
            assert_eq!(b[0], (Color::White.code() << 4) | Color::Green.code());
            assert_eq!(b[1], 0);
        },
        other => panic!("expected transfer chunk, got {:?}", other),
    }
}

#[test]
fn each_fault_aborts_show_with_its_error() {
    // The fallible operations of show() begin: reset low, reset high,
    // busy read, select low, command write, ...
    let cases = [
        (0, TransportError::ResetFault),
        (1, TransportError::ResetFault),
        (2, TransportError::BusyReadFault),
        (3, TransportError::SelectFault),
        (4, TransportError::WriteFault),
    ];
    for (n, expected) in cases {
        let mut d = Display::new(FailingTransport::new(n), Config { border_color: Color::Black });
        assert_eq!(d.show(), Err(expected));
    }
}

#[test]
fn failed_show_leaves_framebuffer_intact() {
    let mut d = Display::new(FailingTransport::new(2), Config { border_color: Color::Black });
    d.fill(Color::Blue);
    assert!(d.show().is_err());
    for y in 0..448 {
        for x in 0..600 {
            assert_eq!(d.pixel(x, y), Color::Blue.code());
        }
    }
}

#[test]
fn repeated_show_repeats_the_full_sequence() {
    let mut d = Display::new(RecordingTransport::new(), Config { border_color: Color::Black });
    d.show().unwrap();
    d.show().unwrap();
    let log = d.into_transport().log;
    let codes = command_codes(&log);
    assert_eq!(codes.len(), 28);
    assert_eq!(codes[..14], codes[14..]);
    assert_eq!(log[0], RecordedEvent::Reset(Level::Low));
    assert_eq!(log[log.len() / 2], RecordedEvent::Reset(Level::Low));
}
