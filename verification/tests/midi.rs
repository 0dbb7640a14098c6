use oscen::midi::{
    encode, note_on_from_midi, parse_bytes, NoteOffEvent, ParsedMidi, RawMidiMessage, VoiceState,
};

#[test]
fn test_raw_midi_message() {
    let msg = RawMidiMessage::new(&[0x90, 60, 100]);
    assert_eq!(msg.bytes[0], 0x90);
    assert_eq!(msg.bytes[1], 60);
    assert_eq!(msg.bytes[2], 100);
    assert_eq!(msg.len, 3);
}

#[test]
fn test_midi_parser_parse_note_on() {
    let parsed = parse_bytes(&[0x90, 60, 100]);
    assert!(matches!(
        parsed,
        Some(ParsedMidi::NoteOn {
            note: 60,
            velocity: 100
        })
    ));
}

#[test]
fn test_midi_parser_parse_note_off() {
    let parsed = parse_bytes(&[0x80, 60, 0]);
    assert!(matches!(parsed, Some(ParsedMidi::NoteOff { note: 60 })));
}

#[test]
fn test_midi_parser_note_on_velocity_zero_is_note_off() {
    // Note-on with velocity 0 should be treated as note-off
    let parsed = parse_bytes(&[0x90, 60, 0]);
    assert!(matches!(parsed, Some(ParsedMidi::NoteOff { note: 60 })));
}

#[test]
fn raw_message_keeps_at_most_three_bytes() {
    let short = RawMidiMessage::new(&[0xC0, 5]);
    assert_eq!(short.len, 2);
    assert_eq!(short.bytes, [0xC0, 5, 0]);
    let long = RawMidiMessage::new(&[0x90, 1, 2, 3, 4]);
    assert_eq!(long.len, 3);
    assert_eq!(long.bytes, [0x90, 1, 2]);
    let empty = RawMidiMessage::new(&[]);
    assert_eq!(empty.len, 0);
    assert_eq!(empty.bytes, [0, 0, 0]);
}

#[test]
fn parser_ignores_short_and_other_messages() {
    assert_eq!(parse_bytes(&[0x90, 60]), None);
    assert_eq!(parse_bytes(&[0xB0, 1, 64]), None);
    // channel bits are ignored
    assert_eq!(parse_bytes(&[0x93, 61, 7]), Some(ParsedMidi::NoteOn { note: 61, velocity: 7 }));
    assert_eq!(parse_bytes(&[0x8F, 61, 7]), Some(ParsedMidi::NoteOff { note: 61 }));
}

#[test]
fn note_events_from_midi_bytes() {
    assert_eq!(note_on_from_midi([0x90, 60, 127]), Some((60, 127)));
    assert_eq!(note_on_from_midi([0x90, 60, 0]), None);
    assert_eq!(NoteOffEvent::from_midi([0x90, 60, 0]), Some(NoteOffEvent { note: 60 }));
    assert_eq!(NoteOffEvent::from_midi([0x80, 60, 64]), Some(NoteOffEvent { note: 60 }));
    assert_eq!(NoteOffEvent::from_midi([0xB0, 1, 64]), None);
    assert_eq!(note_on_from_midi([0xB0, 1, 64]), None);
}

#[test]
fn parsed_events_round_trip_through_their_bytes() {
    for data in [[0x90u8, 69, 100], [0x80, 69, 0], [0x95, 12, 0], [0x81, 3, 9]] {
        let parsed = parse_bytes(&data).unwrap();
        let bytes = encode(&parsed);
        assert_eq!(parse_bytes(&bytes), Some(parsed));
    }
    assert_eq!(encode(&ParsedMidi::NoteOn { note: 60, velocity: 64 }), [0x90, 60, 64]);
    assert_eq!(encode(&ParsedMidi::NoteOff { note: 60 }), [0x80, 60, 0]);
}

#[test]
fn voice_releases_only_its_own_note() {
    let mut v = VoiceState::new();
    assert_eq!(v.current_note, None);
    assert!(!v.note_off(60));
    v.note_on(60);
    assert_eq!(v.current_note, Some(60));
    assert!(!v.note_off(62));
    assert_eq!(v.current_note, Some(60));
    v.note_on(64);
    assert!(!v.note_off(60));
    assert!(v.note_off(64));
    assert_eq!(v.current_note, None);
}
