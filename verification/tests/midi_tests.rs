use midi_mixer::midi::MidiHandler;
use midi_mixer::midi::MidiMessage;

fn msg(channel: u8, control: u8, value: u8) -> MidiMessage {
    MidiMessage { channel, control, value }
}

#[test]
fn decode_rejects_short_buffers() {
    assert_eq!(MidiMessage::new(&[]), None);
    assert_eq!(MidiMessage::new(&[0xB0]), None);
    assert_eq!(MidiMessage::new(&[0xB0, 0x07]), None);
}

#[test]
fn decode_accepts_control_change_status_range() {
    // 0xB0 through 0xBF are Control Change; channel is the low nibble.
    let e = MidiMessage::new(&[0xB0, 0x07, 0x40]).unwrap();
    assert_eq!(e, msg(0, 7, 64));
    let e = MidiMessage::new(&[0xBF, 0x21, 0x7F]).unwrap();
    assert_eq!(e, msg(15, 33, 127));
    let e = MidiMessage::new(&[0xB5, 0x00, 0x00]).unwrap();
    assert_eq!(e, msg(5, 0, 0));
}

#[test]
fn decode_rejects_other_statuses() {
    // Just below and above the Control Change range, and other messages.
    assert_eq!(MidiMessage::new(&[0xAF, 0x07, 0x40]), None); // note off
    assert_eq!(MidiMessage::new(&[0xC0, 0x07, 0x40]), None); // program change
    assert_eq!(MidiMessage::new(&[0x90, 0x40, 0x7F]), None); // note on
    assert_eq!(MidiMessage::new(&[0x00, 0x07, 0x40]), None);
    assert_eq!(MidiMessage::new(&[0xFF, 0x07, 0x40]), None);
}

#[test]
fn decode_takes_control_and_value_verbatim() {
    let e = MidiMessage::new(&[0xB3, 0x10, 0x22, 0x55]).unwrap();
    // Trailing bytes beyond the triple are ignored.
    assert_eq!(e, msg(3, 16, 34));
}

#[test]
fn edge_detector_starts_quiet() {
    let mut h = MidiHandler::new();
    assert!(!h.is_available());
    assert_eq!(h.poll_if_changed(), None);
}

#[test]
fn edge_detector_reports_a_change_exactly_once() {
    let mut h = MidiHandler::new();
    h.record(msg(1, 7, 64));
    assert!(h.is_available());
    assert_eq!(h.poll_if_changed(), Some(msg(1, 7, 64)));
    // Polling again without an intervening record reports nothing.
    assert_eq!(h.poll_if_changed(), None);
    assert!(!h.is_available());
}

#[test]
fn edge_detector_ignores_repeated_identical_events() {
    let mut h = MidiHandler::new();
    h.record(msg(1, 7, 64));
    assert_eq!(h.poll_if_changed(), Some(msg(1, 7, 64)));
    // The same value arriving again is not a new edge.
    h.record(msg(1, 7, 64));
    assert_eq!(h.poll_if_changed(), None);
    // A different value is.
    h.record(msg(1, 7, 65));
    assert_eq!(h.poll_if_changed(), Some(msg(1, 7, 65)));
}

#[test]
fn edge_detector_reports_once_per_run_of_identical_events() {
    let mut h = MidiHandler::new();
    let events = [
        msg(1, 7, 10),
        msg(1, 7, 10),
        msg(1, 7, 20),
        msg(1, 7, 20),
        msg(1, 7, 20),
        msg(1, 7, 10),
    ];
    let mut reported = 0;
    for e in events.iter() {
        h.record(*e);
        if h.poll_if_changed().is_some() {
            reported += 1;
        }
    }
    // Three maximal runs: 10 10 | 20 20 20 | 10.
    assert_eq!(reported, 3);
}

#[test]
fn edge_detector_is_last_value_wins() {
    let mut h = MidiHandler::new();
    // Two distinct events between polls: only the most recent is observed.
    h.record(msg(1, 7, 30));
    h.record(msg(1, 7, 31));
    assert_eq!(h.poll_if_changed(), Some(msg(1, 7, 31)));
    assert_eq!(h.poll_if_changed(), None);
}
