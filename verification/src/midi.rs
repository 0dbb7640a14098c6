//! MIDI byte handling: raw messages, note-on/note-off decoding and the
//! byte form the parser emits.
use vstd::prelude::*;

verus! {

/// Raw MIDI message of up to three bytes; `len` bytes are meaningful and the
/// rest are zero.
#[derive(Debug, Clone, Copy, PartialEq)]
pub struct RawMidiMessage {
    pub bytes: [u8; 3],
    pub len: usize,
}

impl RawMidiMessage {
    /// Keeps the first three bytes of `bytes` (all of them when shorter).
    pub fn new(bytes: &[u8]) -> (msg: Self)
        ensures
            msg.len == if bytes@.len() < 3 {
                bytes@.len() as usize
            } else {
                3usize
            },
            forall|i: int| 0 <= i < msg.len ==> msg.bytes@[i] == bytes@[i],
            forall|i: int| msg.len <= i < 3 ==> msg.bytes@[i] == 0,
    {
        let len = if bytes.len() < 3 {
            bytes.len()
        } else {
            3
        };
        let b0 = if len > 0 {
            bytes[0]
        } else {
            0
        };
        let b1 = if len > 1 {
            bytes[1]
        } else {
            0
        };
        let b2 = if len > 2 {
            bytes[2]
        } else {
            0
        };
        let msg = Self { bytes: [b0, b1, b2], len };
        assert(msg.bytes@ == seq![b0, b1, b2]);
        msg
    }
}

/// A note-on or note-off decoded from MIDI bytes.
#[derive(Debug, Clone, Copy, PartialEq, Eq, Structural)]
pub enum ParsedMidi {
    NoteOn { note: u8, velocity: u8 },
    NoteOff { note: u8 },
}

/// Status nibble of a status byte.
pub open spec fn status_of(b: u8) -> u8 {
    b & 0xF0u8
}

/// What `data` means as a channel voice message: note-off (status `0x8_`,
/// or status `0x9_` with velocity 0), note-on (status `0x9_` with a non-zero
/// velocity), or nothing (fewer than three bytes, or another status).
pub open spec fn parse_spec(data: Seq<u8>) -> Option<ParsedMidi> {
    if data.len() < 3 {
        None
    } else if status_of(data[0]) == 0x80u8 {
        Some(ParsedMidi::NoteOff { note: data[1] })
    } else if status_of(data[0]) == 0x90u8 {
        if data[2] == 0 {
            Some(ParsedMidi::NoteOff { note: data[1] })
        } else {
            Some(ParsedMidi::NoteOn { note: data[1], velocity: data[2] })
        }
    } else {
        None
    }
}

/// Decodes raw MIDI bytes into a note event.
pub fn parse_bytes(data: &[u8]) -> (r: Option<ParsedMidi>)
    ensures
        r == parse_spec(data@),
        r is Some <==> (data@.len() >= 3 && ((data@[0] & 0xF0u8) == 0x80u8 || (data@[0] & 0xF0u8)
            == 0x90u8)),
        r matches Some(ParsedMidi::NoteOn { note, velocity }) ==> (data@[0] & 0xF0u8) == 0x90u8
            && note == data@[1] && velocity == data@[2] && velocity != 0,
        r matches Some(ParsedMidi::NoteOff { note }) ==> note == data@[1] && ((data@[0] & 0xF0u8)
            == 0x80u8 || data@[2] == 0),
{
    proof {
        lemma_only_note_statuses_decode(data@);
    }
    if data.len() < 3 {
        return None;
    }
    let status = data[0] & 0xF0;
    let note = data[1];
    let velocity = data[2];
    if status == 0x80 {
        Some(ParsedMidi::NoteOff { note })
    } else if status == 0x90 {
        if velocity == 0 {
            Some(ParsedMidi::NoteOff { note })
        } else {
            Some(ParsedMidi::NoteOn { note, velocity })
        }
    } else {
        None
    }
}

/// The three bytes the parser emits for a decoded event: `[0x90, note,
/// velocity]` for a note-on and `[0x80, note, 0]` for a note-off.
pub open spec fn encode_spec(p: ParsedMidi) -> Seq<u8> {
    match p {
        ParsedMidi::NoteOn { note, velocity } => seq![0x90u8, note, velocity],
        ParsedMidi::NoteOff { note } => seq![0x80u8, note, 0u8],
    }
}

/// The bytes emitted for `p`.
pub fn encode(p: &ParsedMidi) -> (b: [u8; 3])
    ensures
        b@ == encode_spec(*p),
{
    let b = match p {
        ParsedMidi::NoteOn { note, velocity } => [0x90u8, *note, *velocity],
        ParsedMidi::NoteOff { note } => [0x80u8, *note, 0u8],
    };
    assert(b@ =~= encode_spec(*p));
    b
}

/// Note-off event with note number.
#[derive(Debug, Clone, Copy, PartialEq, Eq, Structural)]
pub struct NoteOffEvent {
    pub note: u8,
}

impl NoteOffEvent {
    /// The note-off carried by a three-byte MIDI payload: a note-off status,
    /// or a note-on status with velocity 0.
    pub fn from_midi(bytes: [u8; 3]) -> (r: Option<Self>)
        ensures
            r == (match parse_spec(bytes@) {
                Some(ParsedMidi::NoteOff { note }) => Some(NoteOffEvent { note }),
                _ => None,
            }),
            r is Some <==> ((bytes[0] & 0xF0u8) == 0x80u8 || ((bytes[0] & 0xF0u8) == 0x90u8
                && bytes[2] == 0)),
            r matches Some(ev) ==> ev.note == bytes[1],
    {
        let status = bytes[0] & 0xF0;
        if status == 0x80 {
            Some(Self { note: bytes[1] })
        } else if status == 0x90 && bytes[2] == 0 {
            Some(Self { note: bytes[1] })
        } else {
            None
        }
    }
}

/// Note number and raw velocity of the note-on carried by a three-byte MIDI
/// payload: a note-on status with a non-zero velocity.
pub fn note_on_from_midi(bytes: [u8; 3]) -> (r: Option<(u8, u8)>)
    ensures
        r == (match parse_spec(bytes@) {
            Some(ParsedMidi::NoteOn { note, velocity }) => Some((note, velocity)),
            _ => None,
        }),
        r is Some <==> ((bytes[0] & 0xF0u8) == 0x90u8 && bytes[2] != 0),
        r matches Some(p) ==> p == (bytes[1], bytes[2]),
{
    if bytes[0] & 0xF0 == 0x90 && bytes[2] > 0 {
        Some((bytes[1], bytes[2]))
    } else {
        None
    }
}

/// The note a single voice plays, if any: a note-on takes the voice over,
/// and only a note-off for the note it plays releases it.
#[derive(Debug, Clone, Copy, PartialEq, Eq, Structural)]
pub struct VoiceState {
    pub current_note: Option<u8>,
}

impl VoiceState {
    pub fn new() -> (v: Self)
        ensures
            v.current_note is None,
    {
        VoiceState { current_note: None }
    }

    /// A note-on for `note`: the voice plays it and opens its gate.
    pub fn note_on(&mut self, note: u8)
        ensures
            final(self).current_note == Some(note),
    {
        self.current_note = Some(note);
    }

    /// A note-off for `note`: when the voice plays that note, it closes its
    /// gate (the result is true) and plays nothing; otherwise nothing changes.
    pub fn note_off(&mut self, note: u8) -> (closed: bool)
        ensures
            closed == (old(self).current_note == Some(note)),
            final(self).current_note == (if closed {
                None
            } else {
                old(self).current_note
            }),
    {
        let closed = match self.current_note {
            Some(n) => n == note,
            None => false,
        };
        if closed {
            self.current_note = None;
        }
        closed
    }
}

/// Only note-off (`0x8_`) and note-on (`0x9_`) messages of at least three
/// bytes decode to anything; every other status (aftertouch, control change,
/// program change, pitch bend, system messages) is ignored. A note-on
/// carries the message's note and its non-zero velocity; a note-off carries
/// the message's note and comes from a `0x8_` status or a zero velocity.
pub proof fn lemma_only_note_statuses_decode(data: Seq<u8>)
    ensures
        parse_spec(data) is Some <==> (data.len() >= 3 && ((data[0] & 0xF0u8) == 0x80u8 || (data[0]
            & 0xF0u8) == 0x90u8)),
        parse_spec(data) matches Some(ParsedMidi::NoteOn { note, velocity }) ==> (data[0] & 0xF0u8)
            == 0x90u8 && note == data[1] && velocity == data[2] && velocity != 0,
        parse_spec(data) matches Some(ParsedMidi::NoteOff { note }) ==> note == data[1] && ((data[0]
            & 0xF0u8) == 0x80u8 || data[2] == 0),
{
}

/// Decoding what the parser emits gives back what it parsed.
pub proof fn lemma_parse_encode_round_trip(data: Seq<u8>)
    requires
        parse_spec(data) is Some,
    ensures
        parse_spec(encode_spec(parse_spec(data)->Some_0)) == parse_spec(data),
{
    assert(status_of(0x90u8) == 0x90u8) by (bit_vector);
    assert(status_of(0x80u8) == 0x80u8) by (bit_vector);
}

/// A note-on message with velocity 0 is a note-off for the same note.
pub proof fn lemma_zero_velocity_note_on_is_note_off(channel: u8, note: u8)
    requires
        channel < 16,
    ensures
        parse_spec(seq![0x90u8 | channel, note, 0u8]) == Some(ParsedMidi::NoteOff { note }),
{
    assert(status_of(0x90u8 | channel) == 0x90u8) by (bit_vector)
        requires
            channel < 16,
    ;
}

} // verus!
