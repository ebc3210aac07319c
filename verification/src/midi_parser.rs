//! Standard MIDI File (SMF) parser, formats 0 and 1 (SMPTE time division is refused).
//!
//! Times are kept exact: a time is a number of "time units", where one second is
//! `ticks_per_quarter * 1_000_000` units (the product of a tick count and a tempo in
//! microseconds per quarter note is a count of such units).

use vstd::prelude::*;
use crate::sort::{SortKey, sort_stable, stable_sort, sorted_by_key, lemma_stable_sort_ensures};

verus! {

// ─────────────────────────────────────────────
// Errors
// ─────────────────────────────────────────────

/// Why a MIDI byte stream was refused.
#[derive(Clone, Copy, Debug, PartialEq, Eq, Structural)]
pub enum ParseError {
    UnexpectedEndU16,
    UnexpectedEndU32,
    UnexpectedEndVlq,
    VlqTooLarge,
    UnexpectedEndNoteOn,
    UnexpectedEndNoteOff,
    UnexpectedEndTwoByteEvent,
    UnexpectedEndControlChange,
    UnexpectedEndProgramChange,
    UnexpectedEndOneByteEvent,
    UnexpectedEndMetaType,
    UnexpectedEndSetTempo,
    MetaExceedsTrack,
    SysExExceedsTrack,
    FileTooShort,
    MissingHeader,
    SmpteUnsupported,
    InvalidTicksPerQuarter,
    ExpectedTrackChunk,
    TrackExceedsFile,
}

/// The human readable message of an error.
pub open spec fn parse_error_text(e: ParseError) -> Seq<char> {
    match e {
        ParseError::UnexpectedEndU16 => "Unexpected end reading u16"@,
        ParseError::UnexpectedEndU32 => "Unexpected end reading u32"@,
        ParseError::UnexpectedEndVlq => "Unexpected end in VLQ"@,
        ParseError::VlqTooLarge => "VLQ value too large"@,
        ParseError::UnexpectedEndNoteOn => "Unexpected end in NoteOn"@,
        ParseError::UnexpectedEndNoteOff => "Unexpected end in NoteOff"@,
        ParseError::UnexpectedEndTwoByteEvent => "Unexpected end in 2-byte event"@,
        ParseError::UnexpectedEndControlChange => "Unexpected end in CC"@,
        ParseError::UnexpectedEndProgramChange => "Unexpected end in Program Change"@,
        ParseError::UnexpectedEndOneByteEvent => "Unexpected end in 1-byte event"@,
        ParseError::UnexpectedEndMetaType => "Unexpected end in meta event type"@,
        ParseError::UnexpectedEndSetTempo => "Unexpected end in SetTempo"@,
        ParseError::MetaExceedsTrack => "Meta event data exceeds track size"@,
        ParseError::SysExExceedsTrack => "SysEx data exceeds track size"@,
        ParseError::FileTooShort => "File too short to be a MIDI file"@,
        ParseError::MissingHeader => "Not a MIDI file (missing MThd header)"@,
        ParseError::SmpteUnsupported => "SMPTE time code division is not supported"@,
        ParseError::InvalidTicksPerQuarter => "Invalid ticks-per-quarter-note (0)"@,
        ParseError::ExpectedTrackChunk => "Expected MTrk chunk"@,
        ParseError::TrackExceedsFile => "Track data exceeds file size"@,
    }
}

impl ParseError {
    /// The human readable message of this error.
    pub fn message(&self) -> (r: &'static str)
        ensures
            r@ == parse_error_text(*self),
    {
        match self {
            ParseError::UnexpectedEndU16 => "Unexpected end reading u16",
            ParseError::UnexpectedEndU32 => "Unexpected end reading u32",
            ParseError::UnexpectedEndVlq => "Unexpected end in VLQ",
            ParseError::VlqTooLarge => "VLQ value too large",
            ParseError::UnexpectedEndNoteOn => "Unexpected end in NoteOn",
            ParseError::UnexpectedEndNoteOff => "Unexpected end in NoteOff",
            ParseError::UnexpectedEndTwoByteEvent => "Unexpected end in 2-byte event",
            ParseError::UnexpectedEndControlChange => "Unexpected end in CC",
            ParseError::UnexpectedEndProgramChange => "Unexpected end in Program Change",
            ParseError::UnexpectedEndOneByteEvent => "Unexpected end in 1-byte event",
            ParseError::UnexpectedEndMetaType => "Unexpected end in meta event type",
            ParseError::UnexpectedEndSetTempo => "Unexpected end in SetTempo",
            ParseError::MetaExceedsTrack => "Meta event data exceeds track size",
            ParseError::SysExExceedsTrack => "SysEx data exceeds track size",
            ParseError::FileTooShort => "File too short to be a MIDI file",
            ParseError::MissingHeader => "Not a MIDI file (missing MThd header)",
            ParseError::SmpteUnsupported => "SMPTE time code division is not supported",
            ParseError::InvalidTicksPerQuarter => "Invalid ticks-per-quarter-note (0)",
            ParseError::ExpectedTrackChunk => "Expected MTrk chunk",
            ParseError::TrackExceedsFile => "Track data exceeds file size",
        }
    }
}

// ─────────────────────────────────────────────
// Byte reading
// ─────────────────────────────────────────────

/// Big-endian value of the two bytes at `off`.
pub open spec fn be_u16(data: Seq<u8>, off: int) -> int {
    data[off] * 256 + data[off + 1]
}

/// Big-endian value of the four bytes at `off`.
pub open spec fn be_u32(data: Seq<u8>, off: int) -> int {
    data[off] * 16777216 + data[off + 1] * 65536 + data[off + 2] * 256 + data[off + 3]
}

/// Reads a big-endian `u16` at `offset`.
pub fn read_u16_be(data: &[u8], offset: usize) -> (r: Result<u16, ParseError>)
    ensures
        offset + 2 > data@.len() ==> r == Err::<u16, ParseError>(ParseError::UnexpectedEndU16),
        offset + 2 <= data@.len() ==> r == Ok::<u16, ParseError>(be_u16(data@, offset as int) as u16),
{
    if offset > data.len() || data.len() - offset < 2 {
        return Err(ParseError::UnexpectedEndU16);
    }
    Ok((data[offset] as u16) * 256 + (data[offset + 1] as u16))
}

/// Reads a big-endian `u32` at `offset`.
pub fn read_u32_be(data: &[u8], offset: usize) -> (r: Result<u32, ParseError>)
    ensures
        offset + 4 > data@.len() ==> r == Err::<u32, ParseError>(ParseError::UnexpectedEndU32),
        offset + 4 <= data@.len() ==> r == Ok::<u32, ParseError>(be_u32(data@, offset as int) as u32),
{
    if offset > data.len() || data.len() - offset < 4 {
        return Err(ParseError::UnexpectedEndU32);
    }
    Ok((data[offset] as u32) * 16777216 + (data[offset + 1] as u32) * 65536
        + (data[offset + 2] as u32) * 256 + (data[offset + 3] as u32))
}

/// Reading a variable-length quantity (at most four bytes, seven bits each, high bit
/// set on every byte but the last), from `off`, with `count` bytes read so far and
/// `acc` accumulated: the value and the offset just past it.
pub open spec fn vlq_from(data: Seq<u8>, off: int, acc: int, count: int) -> Result<(int, int), ParseError>
    decreases 4 - count,
{
    if count >= 4 {
        Err(ParseError::VlqTooLarge)
    } else if off < 0 || off >= data.len() {
        Err(ParseError::UnexpectedEndVlq)
    } else {
        let b = data[off];
        let acc2 = acc * 128 + b % 128;
        if b < 128 {
            Ok((acc2, off + 1))
        } else {
            vlq_from(data, off + 1, acc2, count + 1)
        }
    }
}

/// The variable-length quantity at `off`: its value and the offset just past it.
pub open spec fn spec_vlq(data: Seq<u8>, off: int) -> Result<(int, int), ParseError> {
    vlq_from(data, off, 0, 0)
}

/// A successful read consumes one to four bytes, all inside the data, and
/// yields a value below 2^28.
pub proof fn lemma_vlq_bounds(data: Seq<u8>, off: int)
    ensures
        spec_vlq(data, off) matches Ok((v, next)) ==> off < next <= off + 4 && next <= data.len()
            && 0 <= v < 0x10000000,
{
    lemma_vlq_from_bounds(data, off, 0, 0);
}

proof fn lemma_vlq_from_bounds(data: Seq<u8>, off: int, acc: int, count: int)
    requires
        0 <= count <= 4,
        count == 0 ==> acc == 0,
        count == 1 ==> 0 <= acc < 128,
        count == 2 ==> 0 <= acc < 16384,
        count == 3 ==> 0 <= acc < 2097152,
    ensures
        vlq_from(data, off, acc, count) matches Ok((v, next)) ==> off < next <= off + 4 - count
            && next <= data.len() && 0 <= v < 0x10000000,
    decreases 4 - count,
{
    if count < 4 && 0 <= off < data.len() {
        let b = data[off];
        if b >= 128 {
            lemma_vlq_from_bounds(data, off + 1, acc * 128 + b % 128, count + 1);
        }
    }
}

/// Reads a variable-length quantity at `*offset` and moves `*offset` past it.
pub fn read_vlq(data: &[u8], offset: &mut usize) -> (r: Result<u32, ParseError>)
    ensures
        spec_vlq(data@, *old(offset) as int) matches Ok((v, next)) ==> r == Ok::<u32, ParseError>(
            v as u32,
        ) && *final(offset) == next,
        spec_vlq(data@, *old(offset) as int) matches Err(e) ==> r == Err::<u32, ParseError>(e),
        r is Ok ==> *old(offset) < *final(offset) <= data@.len(),
        r is Err ==> *final(offset) == (if *old(offset) >= data@.len() {
            *old(offset) as int
        } else if *old(offset) + 4 <= data@.len() {
            *old(offset) + 4
        } else {
            data@.len() as int
        }),
{
    proof {
        lemma_vlq_bounds(data@, *offset as int);
    }
    let ghost start = *offset as int;
    let mut value: u32 = 0;
    let mut i: usize = 0;
    while i < 4
        invariant
            0 <= i <= 4,
            start == *old(offset) as int,
            *offset as int == start + i,
            i > 0 ==> start + i <= data@.len(),
            i == 0 ==> value == 0,
            i == 1 ==> value < 128,
            i == 2 ==> value < 16384,
            i == 3 ==> value < 2097152,
            spec_vlq(data@, start) == vlq_from(data@, *offset as int, value as int, i as int),
            spec_vlq(data@, start) matches Ok((v, next)) ==> start < next <= data@.len() && 0 <= v
                < 0x10000000,
        decreases 4 - i,
    {
        if *offset >= data.len() {
            return Err(ParseError::UnexpectedEndVlq);
        }
        let byte = data[*offset];
        *offset = *offset + 1;
        value = value * 128 + (byte % 128) as u32;
        i = i + 1;
        if byte < 128 {
            return Ok(value);
        }
    }
    Err(ParseError::VlqTooLarge)
}

// ─────────────────────────────────────────────
// Events
// ─────────────────────────────────────────────

/// What a track event means to the player.
#[allow(inconsistent_fields)]
#[derive(Clone, Copy, Debug, PartialEq, Eq, Structural)]
pub enum RawEventType {
    NoteOn { channel: u8, note: u8, velocity: u8 },
    NoteOff { channel: u8, note: u8 },
    ProgramChange { channel: u8, program: u8 },
    ControlChange { channel: u8, controller: u8, value: u8 },
    PitchBend { channel: u8, value: u16 },
    SetTempo { us_per_beat: u32 },
    /// Time signature: `numerator / 2^denominator_pow`, MIDI clocks per metronome
    /// click, notated 32nd notes per quarter note.
    TimeSignature { numerator: u8, denominator_pow: u8, clocks: u8, notated_32nds: u8 },
    Other,
}

/// A track event at an absolute tick.
#[derive(Clone, Copy, Debug, PartialEq, Eq, Structural)]
pub struct RawEvent {
    pub tick: u32,
    pub event_type: RawEventType,
}

/// A text meta event (types 0x01 to 0x07: text, copyright, track name, instrument
/// name, lyric, marker, cue point) at an absolute tick, with the place of its bytes:
/// `len` bytes from `start`.
#[derive(Clone, Copy, Debug, PartialEq, Eq, Structural)]
pub struct TextRef {
    pub tick: u32,
    pub text_type: u8,
    pub start: usize,
    pub len: usize,
}

/// The value of an option, as a sequence of zero or one element.
pub open spec fn opt_seq<T>(e: Option<T>) -> Seq<T> {
    match e {
        Some(x) => seq![x],
        None => Seq::empty(),
    }
}

/// The channel event with status byte `status` whose data starts at `off`:
/// the event it yields (if any) and the offset just past its data.
/// A Note On of velocity 0 is a Note Off; unknown statuses yield nothing and read nothing.
pub open spec fn spec_channel_event(data: Seq<u8>, off: int, tick: u32, status: u8) -> Result<
    (Option<RawEvent>, int),
    ParseError,
> {
    let channel = status & 0x0Fu8;
    let kind = status & 0xF0u8;
    if kind == 0x90u8 {
        if off + 2 > data.len() {
            Err(ParseError::UnexpectedEndNoteOn)
        } else {
            let note = data[off];
            let velocity = data[off + 1];
            let t = if velocity == 0 {
                RawEventType::NoteOff { channel, note }
            } else {
                RawEventType::NoteOn { channel, note, velocity }
            };
            Ok((Some(RawEvent { tick, event_type: t }), off + 2))
        }
    } else if kind == 0x80u8 {
        if off + 2 > data.len() {
            Err(ParseError::UnexpectedEndNoteOff)
        } else {
            Ok((Some(RawEvent { tick, event_type: RawEventType::NoteOff { channel, note: data[off] } }), off + 2))
        }
    } else if kind == 0xA0u8 || kind == 0xE0u8 {
        if off + 2 > data.len() {
            Err(ParseError::UnexpectedEndTwoByteEvent)
        } else {
            let d1 = data[off];
            let d2 = data[off + 1];
            let t = if kind == 0xE0u8 {
                RawEventType::PitchBend { channel, value: ((d2 as u16) << 7u16) | (d1 as u16) }
            } else {
                RawEventType::Other
            };
            Ok((Some(RawEvent { tick, event_type: t }), off + 2))
        }
    } else if kind == 0xB0u8 {
        if off + 2 > data.len() {
            Err(ParseError::UnexpectedEndControlChange)
        } else {
            let t = RawEventType::ControlChange { channel, controller: data[off], value: data[off + 1] };
            Ok((Some(RawEvent { tick, event_type: t }), off + 2))
        }
    } else if kind == 0xC0u8 {
        if off + 1 > data.len() {
            Err(ParseError::UnexpectedEndProgramChange)
        } else {
            let t = RawEventType::ProgramChange { channel, program: data[off] };
            Ok((Some(RawEvent { tick, event_type: t }), off + 1))
        }
    } else if kind == 0xD0u8 {
        if off + 1 > data.len() {
            Err(ParseError::UnexpectedEndOneByteEvent)
        } else {
            Ok((Some(RawEvent { tick, event_type: RawEventType::Other }), off + 1))
        }
    } else {
        Ok((None, off))
    }
}

/// Decodes the channel event with status `status` at `*offset`, appends what it
/// yields to `events` and moves `*offset` past its data.
pub fn handle_channel_event(
    offset: &mut usize,
    data: &[u8],
    tick: u32,
    status: u8,
    events: &mut Vec<RawEvent>,
) -> (r: Result<(), ParseError>)
    ensures
        spec_channel_event(data@, *old(offset) as int, tick, status) matches Ok((ev, next)) ==> r
            is Ok && *final(offset) == next && final(events)@ == old(events)@ + opt_seq(ev),
        spec_channel_event(data@, *old(offset) as int, tick, status) matches Err(e) ==> r == Err::<
            (),
            ParseError,
        >(e) && final(events)@ == old(events)@ && *final(offset) == *old(offset),
{
    let channel = status & 0x0F;
    let kind = status & 0xF0;
    let off = *offset;
    let len = data.len();
    if kind == 0x90 {
        if off > len || len - off < 2 {
            return Err(ParseError::UnexpectedEndNoteOn);
        }
        let note = data[off];
        let velocity = data[off + 1];
        *offset = off + 2;
        if velocity == 0 {
            events.push(RawEvent { tick, event_type: RawEventType::NoteOff { channel, note } });
        } else {
            events.push(RawEvent { tick, event_type: RawEventType::NoteOn { channel, note, velocity } });
        }
    } else if kind == 0x80 {
        if off > len || len - off < 2 {
            return Err(ParseError::UnexpectedEndNoteOff);
        }
        let note = data[off];
        *offset = off + 2;
        events.push(RawEvent { tick, event_type: RawEventType::NoteOff { channel, note } });
    } else if kind == 0xA0 || kind == 0xE0 {
        if off > len || len - off < 2 {
            return Err(ParseError::UnexpectedEndTwoByteEvent);
        }
        let d1 = data[off];
        let d2 = data[off + 1];
        *offset = off + 2;
        if kind == 0xE0 {
            let value: u16 = ((d2 as u16) << 7u16) | (d1 as u16);
            events.push(RawEvent { tick, event_type: RawEventType::PitchBend { channel, value } });
        } else {
            events.push(RawEvent { tick, event_type: RawEventType::Other });
        }
    } else if kind == 0xB0 {
        if off > len || len - off < 2 {
            return Err(ParseError::UnexpectedEndControlChange);
        }
        let controller = data[off];
        let value = data[off + 1];
        *offset = off + 2;
        events.push(RawEvent { tick, event_type: RawEventType::ControlChange { channel, controller, value } });
    } else if kind == 0xC0 {
        if off >= len {
            return Err(ParseError::UnexpectedEndProgramChange);
        }
        let program = data[off];
        *offset = off + 1;
        events.push(RawEvent { tick, event_type: RawEventType::ProgramChange { channel, program } });
    } else if kind == 0xD0 {
        if off >= len {
            return Err(ParseError::UnexpectedEndOneByteEvent);
        }
        *offset = off + 1;
        events.push(RawEvent { tick, event_type: RawEventType::Other });
    }
    proof {
        assert(seq![events@.last()] == opt_seq(spec_channel_event(data@, *old(offset) as int, tick, status)->Ok_0.0)
            || events@ == old(events)@);
    }
    Ok(())
}

/// The meta event whose type byte is at `off`: the Set Tempo or Time Signature
/// event it yields (if any), the offset just past it, and whether it is End of Track.
pub open spec fn spec_meta(data: Seq<u8>, off: int, tick: u32) -> Result<(Option<RawEvent>, int, bool), ParseError> {
    if off < 0 || off >= data.len() {
        Err(ParseError::UnexpectedEndMetaType)
    } else {
        let meta_type = data[off];
        match spec_vlq(data, off + 1) {
            Err(e) => Err(e),
            Ok((meta_len, p)) => {
                if meta_type == 0x51 && meta_len == 3 && p + 3 > data.len() {
                    Err(ParseError::UnexpectedEndSetTempo)
                } else if p + meta_len > data.len() {
                    Err(ParseError::MetaExceedsTrack)
                } else {
                    let ev = if meta_type == 0x51 && meta_len == 3 {
                        Some(RawEvent {
                            tick,
                            event_type: RawEventType::SetTempo {
                                us_per_beat: (data[p] * 65536 + data[p + 1] * 256 + data[p + 2]) as u32,
                            },
                        })
                    } else if meta_type == 0x58 && meta_len == 4 {
                        Some(RawEvent {
                            tick,
                            event_type: RawEventType::TimeSignature {
                                numerator: data[p],
                                denominator_pow: data[p + 1],
                                clocks: data[p + 2],
                                notated_32nds: data[p + 3],
                            },
                        })
                    } else {
                        None
                    };
                    Ok((ev, p + meta_len, meta_type == 0x2F))
                }
            },
        }
    }
}

/// The text event of the meta event whose type byte is at `off`, when its type is
/// 0x01 to 0x07: its bytes follow the length.
pub open spec fn spec_meta_text(data: Seq<u8>, off: int, tick: u32) -> Option<TextRef> {
    if 0 <= off < data.len() && 0x01 <= data[off] <= 0x07 {
        match spec_vlq(data, off + 1) {
            Ok((n, p)) => Some(TextRef { tick, text_type: data[off], start: p as usize, len: n as usize }),
            Err(_) => None,
        }
    } else {
        None
    }
}

/// Decodes the meta event whose type byte is at `*offset`, appends a Set Tempo or
/// Time Signature event to `events` when it is one and a text event to `texts` when it is one,
/// moves `*offset` past it and tells whether it is End of Track.
pub fn handle_meta(
    offset: &mut usize,
    data: &[u8],
    tick: u32,
    events: &mut Vec<RawEvent>,
    texts: &mut Vec<TextRef>,
) -> (r: Result<bool, ParseError>)
    ensures
        spec_meta(data@, *old(offset) as int, tick) matches Ok((ev, next, eot)) ==> r == Ok::<
            bool,
            ParseError,
        >(eot) && *final(offset) == next && final(events)@ == old(events)@ + opt_seq(ev)
            && final(texts)@ == old(texts)@ + opt_seq(spec_meta_text(data@, *old(offset) as int, tick)),
        spec_meta(data@, *old(offset) as int, tick) matches Err(e) ==> r == Err::<bool, ParseError>(e)
            && final(events)@ == old(events)@ && final(texts)@ == old(texts)@,
{
    if *offset >= data.len() {
        return Err(ParseError::UnexpectedEndMetaType);
    }
    let meta_type = data[*offset];
    *offset = *offset + 1;
    proof {
        lemma_vlq_bounds(data@, *offset as int);
    }
    let meta_len_u32 = match read_vlq(data, offset) {
        Ok(v) => v,
        Err(e) => return Err(e),
    };
    let meta_len = meta_len_u32 as usize;
    let p = *offset;
    let len = data.len();
    if meta_type == 0x51 && meta_len == 3 {
        if len - p < 3 {
            return Err(ParseError::UnexpectedEndSetTempo);
        }
        let us: u32 = (data[p] as u32) * 65536 + (data[p + 1] as u32) * 256 + (data[p + 2] as u32);
        if len - p < meta_len {
            return Err(ParseError::MetaExceedsTrack);
        }
        events.push(RawEvent { tick, event_type: RawEventType::SetTempo { us_per_beat: us } });
    } else if len - p < meta_len {
        return Err(ParseError::MetaExceedsTrack);
    }
    if meta_type == 0x58 && meta_len == 4 {
        events.push(RawEvent {
            tick,
            event_type: RawEventType::TimeSignature {
                numerator: data[p],
                denominator_pow: data[p + 1],
                clocks: data[p + 2],
                notated_32nds: data[p + 3],
            },
        });
    }
    if 0x01 <= meta_type && meta_type <= 0x07 {
        texts.push(TextRef { tick, text_type: meta_type, start: p, len: meta_len });
    }
    *offset = p + meta_len;
    Ok(meta_type == 0x2F)
}

/// A successful channel event read stays inside the data and never moves backwards.
pub proof fn lemma_channel_event_bounds(data: Seq<u8>, off: int, tick: u32, status: u8)
    requires
        0 <= off <= data.len(),
    ensures
        spec_channel_event(data, off, tick, status) matches Ok((_, next)) ==> off <= next
            <= data.len(),
{
}

/// A successful meta event read moves forward and stays inside the data.
pub proof fn lemma_meta_bounds(data: Seq<u8>, off: int, tick: u32)
    ensures
        spec_meta(data, off, tick) matches Ok((_, next, _)) ==> off < next <= data.len(),
{
    lemma_vlq_bounds(data, off + 1);
}

// ─────────────────────────────────────────────
// Tracks
// ─────────────────────────────────────────────

/// `tick + delta`, saturating at `u32::MAX`.
pub open spec fn sat_add_u32(tick: u32, delta: int) -> u32 {
    if tick + delta > u32::MAX {
        u32::MAX
    } else {
        (tick + delta) as u32
    }
}

/// One step of reading a track body at `off`, with the current tick and running
/// status: the events it yields, the next offset, the new tick, the new running
/// status, and whether reading stops (End of Track, or the data ends after a delta).
pub open spec fn spec_track_step(data: Seq<u8>, off: int, tick: u32, rs: u8) -> Result<
    (Seq<RawEvent>, int, u32, u8, bool),
    ParseError,
> {
    match spec_vlq(data, off) {
        Err(e) => Err(e),
        Ok((delta, p)) => {
            let t = sat_add_u32(tick, delta);
            if p >= data.len() {
                Ok((Seq::empty(), p, t, rs, true))
            } else {
                let b = data[p];
                if b == 0xFF {
                    match spec_meta(data, p + 1, t) {
                        Err(e) => Err(e),
                        Ok((ev, q, eot)) => Ok((opt_seq(ev), q, t, 0u8, eot)),
                    }
                } else if b == 0xF0 || b == 0xF7 {
                    match spec_vlq(data, p + 1) {
                        Err(e) => Err(e),
                        Ok((n, q)) => if q + n > data.len() {
                            Err(ParseError::SysExExceedsTrack)
                        } else {
                            Ok((Seq::empty(), q + n, t, 0u8, false))
                        },
                    }
                } else if b >= 0x80 {
                    match spec_channel_event(data, p + 1, t, b) {
                        Err(e) => Err(e),
                        Ok((ev, q)) => Ok((opt_seq(ev), q, t, b, false)),
                    }
                } else if rs != 0 {
                    match spec_channel_event(data, p, t, rs) {
                        Err(e) => Err(e),
                        Ok((ev, q)) => Ok((opt_seq(ev), q, t, rs, false)),
                    }
                } else {
                    Ok((Seq::empty(), p + 1, t, rs, false))
                }
            }
        },
    }
}

/// A track step moves forward and stays inside the data.
pub proof fn lemma_track_step_bounds(data: Seq<u8>, off: int, tick: u32, rs: u8)
    requires
        0 <= off < data.len(),
    ensures
        spec_track_step(data, off, tick, rs) matches Ok((_, next, _, _, _)) ==> off < next
            <= data.len(),
{
    lemma_vlq_bounds(data, off);
    if let Ok((delta, p)) = spec_vlq(data, off) {
        if p < data.len() {
            let t = sat_add_u32(tick, delta);
            lemma_meta_bounds(data, p + 1, t);
            lemma_vlq_bounds(data, p + 1);
            lemma_channel_event_bounds(data, p + 1, t, data[p]);
            lemma_channel_event_bounds(data, p, t, rs);
        }
    }
}

/// The events of a track body read from `off` on, with the current tick and
/// running status.
pub open spec fn spec_track_from(data: Seq<u8>, off: int, tick: u32, rs: u8) -> Result<Seq<RawEvent>, ParseError>
    decreases data.len() - off,
{
    if off < 0 || off >= data.len() {
        Ok(Seq::empty())
    } else {
        match spec_track_step(data, off, tick, rs) {
            Err(e) => Err(e),
            Ok((evs, next, t, r, stop)) => {
                if stop {
                    Ok(evs)
                } else {
                    proof {
                        lemma_track_step_bounds(data, off, tick, rs);
                    }
                    prefix_result(evs, spec_track_from(data, next, t, r))
                }
            },
        }
    }
}

/// `r` with `prefix` put in front of its events (errors are kept).
pub open spec fn prefix_result(prefix: Seq<RawEvent>, r: Result<Seq<RawEvent>, ParseError>) -> Result<Seq<RawEvent>, ParseError> {
    match r {
        Ok(rest) => Ok(prefix + rest),
        Err(e) => Err(e),
    }
}

proof fn lemma_prefix_result_assoc(a: Seq<RawEvent>, b: Seq<RawEvent>, r: Result<Seq<RawEvent>, ParseError>)
    ensures
        prefix_result(a, prefix_result(b, r)) == prefix_result(a + b, r),
{
    if let Ok(rest) = r {
        assert((a + b) + rest =~= a + (b + rest));
    }
}

/// The events of a whole track body (tick 0, no running status at the start).
pub open spec fn spec_parse_track(data: Seq<u8>) -> Result<Seq<RawEvent>, ParseError> {
    spec_track_from(data, 0, 0, 0)
}

/// The text event read by the track step at `off`, if it reads one.
pub open spec fn spec_step_text(data: Seq<u8>, off: int, tick: u32) -> Option<TextRef> {
    match spec_vlq(data, off) {
        Ok((delta, p)) => if p < data.len() && data[p] == 0xFF {
            spec_meta_text(data, p + 1, sat_add_u32(tick, delta))
        } else {
            None
        },
        Err(_) => None,
    }
}

/// The text events of a track body read from `off` on, with the current tick and
/// running status, as far as the body reads without error.
pub open spec fn spec_track_texts_from(data: Seq<u8>, off: int, tick: u32, rs: u8) -> Seq<TextRef>
    decreases data.len() - off,
{
    if off < 0 || off >= data.len() {
        Seq::empty()
    } else {
        match spec_track_step(data, off, tick, rs) {
            Err(_) => Seq::empty(),
            Ok((_, next, t, r, stop)) => {
                if stop {
                    opt_seq(spec_step_text(data, off, tick))
                } else {
                    proof {
                        lemma_track_step_bounds(data, off, tick, rs);
                    }
                    opt_seq(spec_step_text(data, off, tick)) + spec_track_texts_from(data, next, t, r)
                }
            },
        }
    }
}

/// The text events of a whole track body, with their places in the body.
pub open spec fn spec_parse_track_texts(data: Seq<u8>) -> Seq<TextRef> {
    spec_track_texts_from(data, 0, 0, 0)
}

/// Reads the events of a track body: delta times, meta events (Set Tempo is kept,
/// text events go to `texts`, End of Track stops), SysEx (skipped), channel events
/// with running status.
pub fn parse_track(data: &[u8], texts: &mut Vec<TextRef>) -> (r: Result<Vec<RawEvent>, ParseError>)
    ensures
        match spec_parse_track(data@) {
            Ok(s) => r is Ok && r->Ok_0@ == s,
            Err(e) => r == Err::<Vec<RawEvent>, ParseError>(e),
        },
        r is Ok ==> final(texts)@ == old(texts)@ + spec_parse_track_texts(data@),
{
    let mut events: Vec<RawEvent> = Vec::new();
    let mut offset: usize = 0;
    let mut current_tick: u32 = 0;
    let mut running_status: u8 = 0;
    let mut stop = false;
    let len = data.len();
    let ghost texts_init = texts@;
    assert(events@ + Seq::<RawEvent>::empty() =~= Seq::<RawEvent>::empty());
    while !stop && offset < len
        invariant
            len == data@.len(),
            offset <= len,
            stop ==> spec_parse_track(data@) == Ok::<Seq<RawEvent>, ParseError>(events@),
            !stop ==> prefix_result(events@, spec_track_from(data@, offset as int, current_tick, running_status))
                == spec_parse_track(data@),
            stop ==> texts@ == texts_init + spec_parse_track_texts(data@),
            !stop ==> texts@ + spec_track_texts_from(data@, offset as int, current_tick, running_status)
                == texts_init + spec_parse_track_texts(data@),
        decreases len - offset,
    {
        let ghost off0 = offset as int;
        let ghost ev0 = events@;
        let ghost texts0 = texts@;
        let ghost tick0 = current_tick;
        let ghost rs0 = running_status;
        proof {
            lemma_track_step_bounds(data@, off0, tick0, rs0);
            lemma_vlq_bounds(data@, off0);
        }
        let delta = match read_vlq(data, &mut offset) {
            Ok(v) => v,
            Err(e) => return Err(e),
        };
        current_tick = if delta > u32::MAX - current_tick { u32::MAX } else { current_tick + delta };
        let ghost p = offset as int;
        if offset >= len {
            stop = true;
        } else {
            let byte = data[offset];
            if byte == 0xFF {
                offset = offset + 1;
                let is_eot = match handle_meta(&mut offset, data, current_tick, &mut events, texts) {
                    Ok(b) => b,
                    Err(e) => return Err(e),
                };
                running_status = 0;
                if is_eot {
                    stop = true;
                }
            } else if byte == 0xF0 || byte == 0xF7 {
                offset = offset + 1;
                proof {
                    lemma_vlq_bounds(data@, offset as int);
                }
                let n = match read_vlq(data, &mut offset) {
                    Ok(v) => v as usize,
                    Err(e) => return Err(e),
                };
                if len - offset < n {
                    return Err(ParseError::SysExExceedsTrack);
                }
                offset = offset + n;
                running_status = 0;
            } else if byte >= 0x80 {
                running_status = byte;
                offset = offset + 1;
                proof {
                    lemma_channel_event_bounds(data@, offset as int, current_tick, byte);
                }
                match handle_channel_event(&mut offset, data, current_tick, running_status, &mut events) {
                    Ok(()) => {},
                    Err(e) => return Err(e),
                }
            } else if running_status != 0 {
                proof {
                    lemma_channel_event_bounds(data@, offset as int, current_tick, running_status);
                }
                match handle_channel_event(&mut offset, data, current_tick, running_status, &mut events) {
                    Ok(()) => {},
                    Err(e) => return Err(e),
                }
            } else {
                offset = offset + 1;
            }
        }
        proof {
            let step = spec_track_step(data@, off0, tick0, rs0);
            assert(step is Ok);
            let (evs, next, t, r, st) = step->Ok_0;
            assert(events@ == ev0 + evs);
            assert(next == offset && t == current_tick && r == running_status && st == stop);
            let here = opt_seq(spec_step_text(data@, off0, tick0));
            assert(texts@ == texts0 + here);
            if stop {
                assert(ev0 + evs + Seq::<RawEvent>::empty() =~= ev0 + evs);
            } else {
                lemma_prefix_result_assoc(ev0, evs, spec_track_from(data@, offset as int, current_tick, running_status));
                assert(texts0 + here + spec_track_texts_from(data@, offset as int, current_tick, running_status)
                    =~= texts0 + (here + spec_track_texts_from(data@, offset as int, current_tick, running_status)));
            }
        }
    }
    proof {
        if !stop {
            assert(events@ + Seq::<RawEvent>::empty() =~= events@);
            assert(texts@ + Seq::<TextRef>::empty() =~= texts@);
        }
    }
    Ok(events)
}

// ─────────────────────────────────────────────
// Tick → time
// ─────────────────────────────────────────────

/// Tempo in effect before any Set Tempo (120 BPM), in microseconds per quarter note.
pub const DEFAULT_TEMPO: u32 = 500_000;

/// Time units (tick count times microseconds per quarter note) from tick `prev`,
/// where `tempo` is in effect, up to `tick`, following the tempo changes of `map`
/// from index `i` on that lie before `tick`.
pub open spec fn units_from(tick: u32, map: Seq<(u32, u32)>, i: int, prev: u32, tempo: u32) -> int
    decreases map.len() - i,
{
    if i < 0 || i >= map.len() || map[i].0 >= tick {
        (tick - prev) * tempo
    } else {
        (map[i].0 - prev) * tempo + units_from(tick, map, i + 1, map[i].0, map[i].1)
    }
}

/// Time units from tick 0 to `tick` under the tempo map `map`.
pub open spec fn spec_ticks_to_units(tick: u32, map: Seq<(u32, u32)>) -> int {
    units_from(tick, map, 0, 0, DEFAULT_TEMPO)
}

/// The tempo changes that lie before `tick`, from index `i` on, come in
/// non-decreasing tick order, starting at or after `prev` (else the time is undefined).
pub open spec fn map_ordered_before(tick: u32, map: Seq<(u32, u32)>, i: int, prev: u32) -> bool
    decreases map.len() - i,
{
    if i < 0 || i >= map.len() || map[i].0 >= tick {
        true
    } else {
        map[i].0 >= prev && map_ordered_before(tick, map, i + 1, map[i].0)
    }
}

/// A tempo map whose ticks never decrease.
pub open spec fn tempo_map_sorted(map: Seq<(u32, u32)>) -> bool {
    forall|i: int, j: int| 0 <= i <= j < map.len() ==> #[trigger] map[i].0 <= #[trigger] map[j].0
}

proof fn lemma_sorted_map_ordered(tick: u32, map: Seq<(u32, u32)>, i: int, prev: u32)
    requires
        tempo_map_sorted(map),
        0 <= i,
        i < map.len() ==> prev <= map[i].0,
    ensures
        map_ordered_before(tick, map, i, prev),
    decreases map.len() - i,
{
    if i < map.len() && map[i].0 < tick {
        lemma_sorted_map_ordered(tick, map, i + 1, map[i].0);
    }
}

/// In a sorted tempo map every tick has a defined time.
pub proof fn lemma_sorted_map_defined(tick: u32, map: Seq<(u32, u32)>)
    requires
        tempo_map_sorted(map),
    ensures
        map_ordered_before(tick, map, 0, 0),
{
    lemma_sorted_map_ordered(tick, map, 0, 0);
}

proof fn lemma_units_from_bound(tick: u32, map: Seq<(u32, u32)>, i: int, prev: u32, tempo: u32)
    requires
        map_ordered_before(tick, map, i, prev),
        prev <= tick,
        0 <= i,
    ensures
        0 <= units_from(tick, map, i, prev, tempo) <= (tick - prev) * 0xFFFF_FFFFint,
    decreases map.len() - i,
{
    if i >= map.len() || map[i].0 >= tick {
        assert((tick - prev) * tempo <= (tick - prev) * 0xFFFF_FFFFint) by (nonlinear_arith)
            requires prev <= tick, tempo <= 0xFFFF_FFFFint;
        assert(0 <= (tick - prev) * tempo) by (nonlinear_arith)
            requires prev <= tick, 0 <= tempo;
    } else {
        let c = map[i].0;
        lemma_units_from_bound(tick, map, i + 1, c, map[i].1);
        assert((c - prev) * tempo <= (c - prev) * 0xFFFF_FFFFint) by (nonlinear_arith)
            requires prev <= c, tempo <= 0xFFFF_FFFFint;
        assert(0 <= (c - prev) * tempo) by (nonlinear_arith)
            requires prev <= c, 0 <= tempo;
        assert((c - prev) * 0xFFFF_FFFFint + (tick - c) * 0xFFFF_FFFFint == (tick - prev)
            * 0xFFFF_FFFFint) by (nonlinear_arith);
    }
}

/// The time of a tick is at least 0 and below 2^64 units.
pub proof fn lemma_ticks_to_units_bound(tick: u32, map: Seq<(u32, u32)>)
    requires
        map_ordered_before(tick, map, 0, 0),
    ensures
        0 <= spec_ticks_to_units(tick, map) <= tick * 0xFFFF_FFFFint,
        spec_ticks_to_units(tick, map) < 0x1_0000_0000_0000_0000int,
{
    lemma_units_from_bound(tick, map, 0, 0, DEFAULT_TEMPO);
    assert(tick * 0xFFFF_FFFFint < 0x1_0000_0000_0000_0000int) by (nonlinear_arith)
        requires tick <= 0xFFFF_FFFFint;
}

/// Time units from tick 0 to `tick` (one second is `ticks_per_quarter * 1_000_000` units).
pub fn ticks_to_units(tick: u32, tempo_map: &[(u32, u32)]) -> (r: u128)
    requires
        map_ordered_before(tick, tempo_map@, 0, 0),
    ensures
        r == spec_ticks_to_units(tick, tempo_map@),
        r < 0x1_0000_0000_0000_0000u128,
{
    proof {
        lemma_ticks_to_units_bound(tick, tempo_map@);
    }
    let mut acc: u128 = 0;
    let mut prev: u32 = 0;
    let mut tempo: u32 = DEFAULT_TEMPO;
    let mut i: usize = 0;
    while i < tempo_map.len()
        invariant
            i <= tempo_map@.len(),
            prev <= tick,
            map_ordered_before(tick, tempo_map@, i as int, prev),
            acc + units_from(tick, tempo_map@, i as int, prev, tempo) == spec_ticks_to_units(tick, tempo_map@),
            acc <= prev * 0xFFFF_FFFFint,
        ensures
            i >= tempo_map@.len() || tempo_map@[i as int].0 >= tick,
        decreases tempo_map@.len() - i,
    {
        let (change_tick, new_tempo) = tempo_map[i];
        if change_tick >= tick {
            break;
        }
        proof {
            lemma_units_from_bound(tick, tempo_map@, i + 1, change_tick, new_tempo);
            assert((change_tick - prev) * tempo <= (change_tick - prev) * 0xFFFF_FFFFint) by (nonlinear_arith)
                requires prev <= change_tick, tempo <= 0xFFFF_FFFFint;
            assert(0 <= (change_tick - prev) * tempo) by (nonlinear_arith)
                requires prev <= change_tick, 0 <= tempo;
            assert(prev * 0xFFFF_FFFFint + (change_tick - prev) * 0xFFFF_FFFFint == change_tick
                * 0xFFFF_FFFFint) by (nonlinear_arith);
            assert(change_tick * 0xFFFF_FFFFint < 0x1_0000_0000_0000_0000int) by (nonlinear_arith)
                requires change_tick <= 0xFFFF_FFFFint;
        }
        acc = acc + ((change_tick - prev) as u128) * (tempo as u128);
        prev = change_tick;
        tempo = new_tempo;
        i = i + 1;
    }
    proof {
        lemma_units_from_bound(tick, tempo_map@, i as int, prev, tempo);
        assert((tick - prev) * tempo <= (tick - prev) * 0xFFFF_FFFFint) by (nonlinear_arith)
            requires prev <= tick, tempo <= 0xFFFF_FFFFint;
        assert(0 <= (tick - prev) * tempo) by (nonlinear_arith)
            requires prev <= tick, 0 <= tempo;
    }
    acc + ((tick - prev) as u128) * (tempo as u128)
}

/// An exact time in seconds: `num / den`.
#[derive(Clone, Copy, Debug, PartialEq, Eq, Structural)]
pub struct TimeSec {
    pub num: u128,
    pub den: u64,
}

/// The time in seconds of `tick`, given the tempo map and the ticks per quarter
/// note: `0` when `tpq` is 0, else the time units over `tpq * 1_000_000`.
pub fn ticks_to_sec(tick: u32, tempo_map: &[(u32, u32)], tpq: u32) -> (r: TimeSec)
    requires
        tpq != 0 ==> map_ordered_before(tick, tempo_map@, 0, 0),
    ensures
        tpq == 0 ==> r.num == 0 && r.den == 1,
        tpq != 0 ==> r.num == spec_ticks_to_units(tick, tempo_map@) && r.den == tpq * 1_000_000,
{
    if tpq == 0 {
        return TimeSec { num: 0, den: 1 };
    }
    let num = ticks_to_units(tick, tempo_map);
    TimeSec { num, den: (tpq as u64) * 1_000_000 }
}

// ─────────────────────────────────────────────
// Parsed data
// ─────────────────────────────────────────────

/// A note with its start and length, and the bank and program of its channel
/// when it started. Times are in time units (see the module documentation).
#[derive(Clone, Copy, Debug, PartialEq, Eq, Structural)]
pub struct NoteEvent {
    pub tick: u32,
    pub time_units: u128,
    pub channel: u8,
    pub note: u8,
    pub velocity: u8,
    pub duration_tick: u32,
    pub duration_units: u128,
    pub bank: u8,
    pub program: u8,
}

/// A control event: Control Change (0xB0), Program Change (0xC0) or Pitch Bend (0xE0).
#[derive(Clone, Copy, Debug, PartialEq, Eq, Structural)]
pub struct MidiControlEvent {
    pub tick: u32,
    pub time_units: u128,
    pub channel: u8,
    pub command: u8,
    pub data1: u8,
    pub data2: u8,
}

/// A time signature of the song, in force from its tick on: `numerator` beats of
/// `1 / 2^denominator_pow` notes to the bar, MIDI clocks per metronome click, and
/// notated 32nd notes per quarter note.
#[derive(Clone, Copy, Debug, PartialEq, Eq, Structural)]
pub struct TimeSignature {
    pub tick: u32,
    pub time_units: u128,
    pub numerator: u8,
    pub denominator_pow: u8,
    pub clocks_per_click: u8,
    pub notated_32nds: u8,
}

/// A text meta event (lyric, marker, track name, ...): its tick and time, its type
/// (0x01 to 0x07) and its text, read as UTF-8, or as Shift_JIS when the bytes are
/// not valid UTF-8.
#[derive(Debug)]
pub struct MetaText {
    pub tick: u32,
    pub time_units: u128,
    pub text_type: u8,
    pub text: String,
}

/// The mathematical content of a text meta event.
pub struct MetaTextView {
    pub tick: u32,
    pub time_units: u128,
    pub text_type: u8,
    pub text: Seq<char>,
}

impl View for MetaText {
    type V = MetaTextView;

    open spec fn view(&self) -> MetaTextView {
        MetaTextView { tick: self.tick, time_units: self.time_units, text_type: self.text_type, text: self.text@ }
    }
}

/// The result of parsing a Standard MIDI File.
pub struct MidiData {
    pub format: u16,
    pub ticks_per_quarter: u32,
    /// Notes sorted by start tick.
    pub notes: Vec<NoteEvent>,
    pub control_events: Vec<MidiControlEvent>,
    /// Length of the song (end of the last note plus 1.5 s of release), in time units.
    pub duration_units: u128,
    /// (tick, microseconds per quarter note), by tick.
    pub tempo_map: Vec<(u32, u32)>,
    /// Text meta events, sorted by tick.
    pub texts: Vec<MetaText>,
    /// Time signatures, sorted by tick.
    pub time_signatures: Vec<TimeSignature>,
}

/// The mathematical content of a parse result.
pub struct ParsedMidi {
    pub format: u16,
    pub ticks_per_quarter: u32,
    pub notes: Seq<NoteEvent>,
    pub control_events: Seq<MidiControlEvent>,
    pub duration_units: int,
    pub tempo_map: Seq<(u32, u32)>,
    pub texts: Seq<MetaTextView>,
    pub time_signatures: Seq<TimeSignature>,
}

impl View for MidiData {
    type V = ParsedMidi;

    open spec fn view(&self) -> ParsedMidi {
        ParsedMidi {
            format: self.format,
            ticks_per_quarter: self.ticks_per_quarter,
            notes: self.notes@,
            control_events: self.control_events@,
            duration_units: self.duration_units as int,
            tempo_map: self.tempo_map@,
            texts: self.texts@.map_values(|t: MetaText| t@),
            time_signatures: self.time_signatures@,
        }
    }
}

impl MidiData {
    /// Time units per second: `ticks_per_quarter * 1_000_000`.
    pub fn units_per_sec(&self) -> (r: u64)
        ensures
            r == self.ticks_per_quarter * 1_000_000,
    {
        (self.ticks_per_quarter as u64) * 1_000_000
    }
}

/// Order of events at the same tick: Note Off, Set Tempo and Time Signature,
/// Program Change, Control Change and Pitch Bend, Note On, others.
pub open spec fn event_priority(t: RawEventType) -> int {
    match t {
        RawEventType::NoteOff { .. } => 0,
        RawEventType::SetTempo { .. } => 1,
        RawEventType::TimeSignature { .. } => 1,
        RawEventType::ProgramChange { .. } => 2,
        RawEventType::ControlChange { .. } => 3,
        RawEventType::PitchBend { .. } => 3,
        RawEventType::NoteOn { .. } => 4,
        RawEventType::Other => 5,
    }
}

impl SortKey for RawEvent {
    open spec fn sort_key(&self) -> int {
        self.tick * 8 + event_priority(self.event_type)
    }

    fn key(&self) -> (k: u128) {
        let p: u128 = match self.event_type {
            RawEventType::NoteOff { .. } => 0,
            RawEventType::SetTempo { .. } => 1,
            RawEventType::TimeSignature { .. } => 1,
            RawEventType::ProgramChange { .. } => 2,
            RawEventType::ControlChange { .. } => 3,
            RawEventType::PitchBend { .. } => 3,
            RawEventType::NoteOn { .. } => 4,
            RawEventType::Other => 5,
        };
        (self.tick as u128) * 8 + p
    }
}

impl SortKey for TextRef {
    open spec fn sort_key(&self) -> int {
        self.tick as int
    }

    fn key(&self) -> (k: u128) {
        self.tick as u128
    }
}

impl SortKey for NoteEvent {
    open spec fn sort_key(&self) -> int {
        self.tick as int
    }

    fn key(&self) -> (k: u128) {
        self.tick as u128
    }
}

/// Events sorted by (tick, priority) have non-decreasing ticks.
pub proof fn lemma_sorted_events_ticks(evs: Seq<RawEvent>, i: int, j: int)
    requires
        sorted_by_key(evs),
        0 <= i <= j < evs.len(),
    ensures
        evs[i].tick <= evs[j].tick,
{
    assert(evs[i].sort_key() <= evs[j].sort_key());
}

// ─────────────────────────────────────────────
// File structure
// ─────────────────────────────────────────────

/// The four bytes at `off` are `a b c d`.
pub open spec fn has_tag(data: Seq<u8>, off: int, a: u8, b: u8, c: u8, d: u8) -> bool {
    data[off] == a && data[off + 1] == b && data[off + 2] == c && data[off + 3] == d
}

/// The events of the (at most `remaining`) track chunks from `off` on, in file
/// order. Reading stops without error when fewer than 8 bytes are left.
pub open spec fn spec_tracks(data: Seq<u8>, off: int, remaining: int) -> Result<Seq<RawEvent>, ParseError>
    decreases remaining,
{
    if remaining <= 0 || off + 8 > data.len() {
        Ok(Seq::empty())
    } else if !has_tag(data, off, 0x4D, 0x54, 0x72, 0x6B) {
        Err(ParseError::ExpectedTrackChunk)
    } else {
        let start = off + 8;
        let end = start + be_u32(data, off + 4);
        if end > data.len() {
            Err(ParseError::TrackExceedsFile)
        } else {
            match spec_parse_track(data.subrange(start, end)) {
                Err(e) => Err(e),
                Ok(evs) => prefix_result(evs, spec_tracks(data, end, remaining - 1)),
            }
        }
    }
}

/// Text events with their places moved `d` bytes on.
pub open spec fn shift_texts(s: Seq<TextRef>, d: int) -> Seq<TextRef> {
    s.map_values(|t: TextRef| TextRef { tick: t.tick, text_type: t.text_type, start: (t.start + d) as usize, len: t.len })
}

/// The text events of the (at most `remaining`) track chunks from `off` on, in file
/// order, with their places in the file.
pub open spec fn spec_tracks_texts(data: Seq<u8>, off: int, remaining: int) -> Seq<TextRef>
    decreases remaining,
{
    if remaining <= 0 || off + 8 > data.len() || !has_tag(data, off, 0x4D, 0x54, 0x72, 0x6B) {
        Seq::empty()
    } else {
        let start = off + 8;
        let end = start + be_u32(data, off + 4);
        if end > data.len() {
            Seq::empty()
        } else {
            shift_texts(spec_parse_track_texts(data.subrange(start, end)), start) + spec_tracks_texts(data, end, remaining - 1)
        }
    }
}

/// A text event of type 0x01 to 0x07 whose bytes lie inside `data` (its length was
/// read as a variable-length quantity, so it is below 2^28).
pub open spec fn text_in(t: TextRef, data: Seq<u8>) -> bool {
    t.start + t.len <= data.len() && t.len < 0x10000000 && 0x01 <= t.text_type <= 0x07
}

proof fn lemma_track_texts_in(data: Seq<u8>, off: int, tick: u32, rs: u8)
    requires
        0 <= off,
    ensures
        forall|k: int| 0 <= k < spec_track_texts_from(data, off, tick, rs).len() ==> text_in(
            #[trigger] spec_track_texts_from(data, off, tick, rs)[k],
            data,
        ),
    decreases data.len() - off,
{
    if off < data.len() {
        if let Ok((_, next, t, r, stop)) = spec_track_step(data, off, tick, rs) {
            lemma_vlq_bounds(data, off);
            if let Ok((delta, p)) = spec_vlq(data, off) {
                if p < data.len() && data[p] == 0xFF {
                    lemma_vlq_bounds(data, p + 2);
                }
            }
            let here = opt_seq(spec_step_text(data, off, tick));
            assert forall|k: int| 0 <= k < here.len() implies text_in(#[trigger] here[k], data) by {}
            if !stop {
                lemma_track_step_bounds(data, off, tick, rs);
                lemma_track_texts_in(data, next, t, r);
                let rest = spec_track_texts_from(data, next, t, r);
                let all = spec_track_texts_from(data, off, tick, rs);
                assert(all == here + rest);
                assert forall|k: int| 0 <= k < all.len() implies text_in(#[trigger] all[k], data) by {
                    if k >= here.len() {
                        assert(all[k] == rest[k - here.len()]);
                    }
                }
            }
        }
    }
}

proof fn lemma_tracks_texts_in(data: Seq<u8>, off: int, remaining: int)
    requires
        0 <= off,
    ensures
        forall|k: int| 0 <= k < spec_tracks_texts(data, off, remaining).len() ==> text_in(
            #[trigger] spec_tracks_texts(data, off, remaining)[k],
            data,
        ),
    decreases remaining,
{
    if !(remaining <= 0 || off + 8 > data.len() || !has_tag(data, off, 0x4D, 0x54, 0x72, 0x6B)) {
        let start = off + 8;
        let end = start + be_u32(data, off + 4);
        if end <= data.len() {
            let d = data.subrange(start, end);
            lemma_track_texts_in(d, 0, 0, 0);
            lemma_tracks_texts_in(data, end, remaining - 1);
            let a = shift_texts(spec_parse_track_texts(d), start);
            let b = spec_tracks_texts(data, end, remaining - 1);
            let all = spec_tracks_texts(data, off, remaining);
            assert(all == a + b);
            assert forall|k: int| 0 <= k < all.len() implies text_in(#[trigger] all[k], data) by {
                if k < a.len() {
                    assert(text_in(spec_parse_track_texts(d)[k], d));
                } else {
                    assert(all[k] == b[k - a.len()]);
                }
            }
        }
    }
}

/// The tempo map built from (sorted) events: (0, 500000) first, replaced by a Set
/// Tempo at tick 0, then one entry per later Set Tempo.
pub open spec fn tempo_map_from(evs: Seq<RawEvent>) -> Seq<(u32, u32)>
    decreases evs.len(),
{
    if evs.len() == 0 {
        seq![(0u32, DEFAULT_TEMPO)]
    } else {
        let m = tempo_map_from(evs.drop_last());
        let e = evs.last();
        match e.event_type {
            RawEventType::SetTempo { us_per_beat } => if e.tick == 0 {
                m.update(0, (0u32, us_per_beat))
            } else {
                m.push((e.tick, us_per_beat))
            },
            _ => m,
        }
    }
}

proof fn lemma_tempo_map_from_shape(evs: Seq<RawEvent>)
    requires
        sorted_by_key(evs),
    ensures
        tempo_map_from(evs).len() >= 1,
        tempo_map_from(evs)[0].0 == 0,
        tempo_map_sorted(tempo_map_from(evs)),
        evs.len() > 0 ==> forall|j: int| 0 <= j < tempo_map_from(evs).len() ==> #[trigger] tempo_map_from(evs)[j].0 <= evs.last().tick,
    decreases evs.len(),
{
    if evs.len() > 0 {
        let t = evs.drop_last();
        assert(sorted_by_key(t)) by {
            assert forall|i: int, j: int| 0 <= i <= j < t.len() implies #[trigger] t[i].sort_key() <= #[trigger] t[j].sort_key() by {
                assert(evs[i].sort_key() <= evs[j].sort_key());
            }
        }
        lemma_tempo_map_from_shape(t);
        if t.len() > 0 {
            lemma_sorted_events_ticks(evs, t.len() - 1, evs.len() - 1);
        }
    }
}

/// A note waiting for its Note Off.
#[derive(Clone, Copy, Debug, PartialEq, Eq, Structural)]
pub struct PendingNote {
    pub tick: u32,
    pub channel: u8,
    pub note: u8,
    pub velocity: u8,
    pub bank: u8,
    pub program: u8,
}

/// State while pairing Note On and Note Off events.
pub struct MatchState {
    /// Notes still waiting for a Note Off, in the order they started.
    pub pending: Seq<PendingNote>,
    /// Current bank (CC#0) of each of the 16 channels.
    pub bank: Seq<u8>,
    /// Current program of each of the 16 channels.
    pub program: Seq<u8>,
    pub notes: Seq<NoteEvent>,
    pub controls: Seq<MidiControlEvent>,
}

/// Index of the first pending note of `channel`/`note` at or after `j`, or the length.
pub open spec fn first_pending_from(p: Seq<PendingNote>, channel: u8, note: u8, j: int) -> int
    decreases p.len() - j,
{
    if j < 0 || j >= p.len() {
        p.len() as int
    } else if p[j].channel == channel && p[j].note == note {
        j
    } else {
        first_pending_from(p, channel, note, j + 1)
    }
}

/// A control event of `command` at the tick of `e`.
pub open spec fn control_at(e: RawEvent, map: Seq<(u32, u32)>, channel: u8, command: u8, d1: u8, d2: u8) -> MidiControlEvent {
    MidiControlEvent {
        tick: e.tick,
        time_units: spec_ticks_to_units(e.tick, map) as u128,
        channel,
        command,
        data1: d1,
        data2: d2,
    }
}

/// The note closed by a Note Off at `end_tick`: FIFO start `p`.
pub open spec fn closed_note(p: PendingNote, end_tick: u32, map: Seq<(u32, u32)>) -> NoteEvent {
    let start = spec_ticks_to_units(p.tick, map);
    let end = spec_ticks_to_units(end_tick, map);
    NoteEvent {
        tick: p.tick,
        time_units: start as u128,
        channel: p.channel,
        note: p.note,
        velocity: p.velocity,
        duration_tick: if end_tick >= p.tick { (end_tick - p.tick) as u32 } else { 0 },
        duration_units: if end >= start { (end - start) as u128 } else { 0 },
        bank: p.bank,
        program: p.program,
    }
}

/// A note that never received its Note Off: a sixteenth of a beat, 0.125 s.
pub open spec fn unclosed_note(p: PendingNote, map: Seq<(u32, u32)>, tpq: u32) -> NoteEvent {
    NoteEvent {
        tick: p.tick,
        time_units: spec_ticks_to_units(p.tick, map) as u128,
        channel: p.channel,
        note: p.note,
        velocity: p.velocity,
        duration_tick: tpq / 4,
        duration_units: (tpq * 125_000) as u128,
        bank: p.bank,
        program: p.program,
    }
}

/// One event applied to the pairing state.
pub open spec fn match_step(st: MatchState, e: RawEvent, map: Seq<(u32, u32)>) -> MatchState {
    match e.event_type {
        RawEventType::ControlChange { channel, controller, value } => MatchState {
            pending: st.pending,
            bank: if controller == 0 { st.bank.update((channel & 0x0Fu8) as int, value) } else { st.bank },
            program: st.program,
            notes: st.notes,
            controls: st.controls.push(control_at(e, map, channel, 0xB0, controller, value)),
        },
        RawEventType::ProgramChange { channel, program } => MatchState {
            pending: st.pending,
            bank: st.bank,
            program: st.program.update((channel & 0x0Fu8) as int, program),
            notes: st.notes,
            controls: st.controls.push(control_at(e, map, channel, 0xC0, program, 0)),
        },
        RawEventType::PitchBend { channel, value } => MatchState {
            pending: st.pending,
            bank: st.bank,
            program: st.program,
            notes: st.notes,
            controls: st.controls.push(
                control_at(e, map, channel, 0xE0, (value & 0x7Fu16) as u8, (value >> 7u16) as u8),
            ),
        },
        RawEventType::NoteOn { channel, note, velocity } => {
            let idx = (channel & 0x0Fu8) as int;
            MatchState {
                pending: st.pending.push(
                    PendingNote { tick: e.tick, channel, note, velocity, bank: st.bank[idx], program: st.program[idx] },
                ),
                bank: st.bank,
                program: st.program,
                notes: st.notes,
                controls: st.controls,
            }
        },
        RawEventType::NoteOff { channel, note } => {
            let i = first_pending_from(st.pending, channel, note, 0);
            if i < st.pending.len() {
                MatchState {
                    pending: st.pending.remove(i),
                    bank: st.bank,
                    program: st.program,
                    notes: st.notes.push(closed_note(st.pending[i], e.tick, map)),
                    controls: st.controls,
                }
            } else {
                st
            }
        },
        _ => st,
    }
}

/// The pairing state before any event.
pub open spec fn match_init() -> MatchState {
    MatchState {
        pending: Seq::empty(),
        bank: Seq::new(16, |i: int| 0u8),
        program: Seq::new(16, |i: int| 0u8),
        notes: Seq::empty(),
        controls: Seq::empty(),
    }
}

/// The pairing state after the events `evs`, in order.
pub open spec fn match_fold(evs: Seq<RawEvent>, map: Seq<(u32, u32)>) -> MatchState
    decreases evs.len(),
{
    if evs.len() == 0 {
        match_init()
    } else {
        match_step(match_fold(evs.drop_last(), map), evs.last(), map)
    }
}

/// All notes of the file, before sorting: closed notes in Note Off order, then
/// notes left open, in the order they started.
pub open spec fn all_notes(evs: Seq<RawEvent>, map: Seq<(u32, u32)>, tpq: u32) -> Seq<NoteEvent> {
    let st = match_fold(evs, map);
    st.notes + st.pending.map_values(|p: PendingNote| unclosed_note(p, map, tpq))
}

/// The latest note end (start plus length) among `notes`, or 0.
pub open spec fn max_note_end(notes: Seq<NoteEvent>) -> int
    decreases notes.len(),
{
    if notes.len() == 0 {
        0
    } else {
        let m = max_note_end(notes.drop_last());
        let e = notes.last().time_units + notes.last().duration_units;
        if e > m { e } else { m }
    }
}

/// The time signatures among (sorted) events, in order, timed under `map`.
pub open spec fn time_signatures_from(evs: Seq<RawEvent>, map: Seq<(u32, u32)>) -> Seq<TimeSignature>
    decreases evs.len(),
{
    if evs.len() == 0 {
        Seq::empty()
    } else {
        let rest = time_signatures_from(evs.drop_last(), map);
        let e = evs.last();
        match e.event_type {
            RawEventType::TimeSignature { numerator, denominator_pow, clocks, notated_32nds } => rest.push(
                TimeSignature {
                    tick: e.tick,
                    time_units: spec_ticks_to_units(e.tick, map) as u128,
                    numerator,
                    denominator_pow,
                    clocks_per_click: clocks,
                    notated_32nds,
                },
            ),
            _ => rest,
        }
    }
}

proof fn lemma_time_signatures_from(evs: Seq<RawEvent>, map: Seq<(u32, u32)>)
    requires
        sorted_by_key(evs),
    ensures
        forall|i: int, j: int| 0 <= i <= j < time_signatures_from(evs, map).len() ==> #[trigger] time_signatures_from(evs, map)[i].tick
            <= #[trigger] time_signatures_from(evs, map)[j].tick,
        forall|k: int| 0 <= k < time_signatures_from(evs, map).len() ==> #[trigger] time_signatures_from(evs, map)[k].time_units
            == spec_ticks_to_units(time_signatures_from(evs, map)[k].tick, map) as u128,
        evs.len() > 0 ==> forall|k: int| 0 <= k < time_signatures_from(evs, map).len() ==> #[trigger] time_signatures_from(evs, map)[k].tick
            <= evs.last().tick,
    decreases evs.len(),
{
    if evs.len() > 0 {
        let t = evs.drop_last();
        assert(sorted_by_key(t)) by {
            assert forall|i: int, j: int| 0 <= i <= j < t.len() implies #[trigger] t[i].sort_key() <= #[trigger] t[j].sort_key() by {
                assert(evs[i].sort_key() <= evs[j].sort_key());
            }
        }
        lemma_time_signatures_from(t, map);
        if t.len() > 0 {
            lemma_sorted_events_ticks(evs, t.len() - 1, evs.len() - 1);
        }
        let rest = time_signatures_from(t, map);
        let all = time_signatures_from(evs, map);
        assert(all.len() == rest.len() || all.len() == rest.len() + 1);
        assert forall|k: int| 0 <= k < rest.len() implies #[trigger] all[k] == rest[k] by {}
        assert forall|k: int| 0 <= k < all.len() implies #[trigger] all[k].time_units
            == spec_ticks_to_units(all[k].tick, map) as u128 && all[k].tick <= evs.last().tick by {
            if k < rest.len() {
                assert(all[k] == rest[k]);
            }
        }
        assert forall|i: int, j: int| 0 <= i <= j < all.len() implies #[trigger] all[i].tick
            <= #[trigger] all[j].tick by {
            if j < rest.len() {
                assert(all[i] == rest[i] && all[j] == rest[j]);
            } else if i < rest.len() {
                assert(all[i] == rest[i]);
            }
        }
    }
}

/// Picks the time signatures out of events sorted by (tick, priority).
fn time_signatures(events: &Vec<RawEvent>, map: &Vec<(u32, u32)>) -> (r: Vec<TimeSignature>)
    requires
        tempo_map_sorted(map@),
    ensures
        r@ == time_signatures_from(events@, map@),
{
    let mut out: Vec<TimeSignature> = Vec::new();
    let mut i: usize = 0;
    assert(events@.take(0) =~= Seq::<RawEvent>::empty());
    while i < events.len()
        invariant
            i <= events@.len(),
            tempo_map_sorted(map@),
            out@ == time_signatures_from(events@.take(i as int), map@),
        decreases events@.len() - i,
    {
        let ev = events[i];
        proof {
            assert(events@.take(i + 1).drop_last() =~= events@.take(i as int));
        }
        match ev.event_type {
            RawEventType::TimeSignature { numerator, denominator_pow, clocks, notated_32nds } => {
                proof {
                    lemma_sorted_map_defined(ev.tick, map@);
                }
                let time_units = ticks_to_units(ev.tick, map.as_slice());
                out.push(TimeSignature {
                    tick: ev.tick,
                    time_units,
                    numerator,
                    denominator_pow,
                    clocks_per_click: clocks,
                    notated_32nds,
                });
            },
            _ => {},
        }
        i = i + 1;
    }
    assert(events@.take(events@.len() as int) =~= events@);
    out
}

/// The text meta event that `t` places in `data`, with its time under `map`.
pub open spec fn meta_text_of(t: TextRef, data: Seq<u8>, map: Seq<(u32, u32)>) -> MetaTextView {
    MetaTextView {
        tick: t.tick,
        time_units: spec_ticks_to_units(t.tick, map) as u128,
        text_type: t.text_type,
        text: crate::decoded_text(data.subrange(t.start as int, t.start + t.len)),
    }
}

/// What a file `data` with the given header fields, track events and text events
/// parses to.
pub open spec fn build_midi(raw: Seq<RawEvent>, text_refs: Seq<TextRef>, data: Seq<u8>, format: u16, tpq: u32) -> ParsedMidi {
    let evs = stable_sort(raw);
    let map = tempo_map_from(evs);
    let notes = all_notes(evs, map, tpq);
    ParsedMidi {
        format,
        ticks_per_quarter: tpq,
        notes: stable_sort(notes),
        control_events: match_fold(evs, map).controls,
        duration_units: max_note_end(notes) + tpq * 1_500_000,
        tempo_map: map,
        texts: stable_sort(text_refs).map_values(|t: TextRef| meta_text_of(t, data, map)),
        time_signatures: time_signatures_from(evs, map),
    }
}

/// What parsing a Standard MIDI File gives.
pub open spec fn spec_parse(data: Seq<u8>) -> Result<ParsedMidi, ParseError> {
    if data.len() < 14 {
        Err(ParseError::FileTooShort)
    } else if !has_tag(data, 0, 0x4D, 0x54, 0x68, 0x64) {
        Err(ParseError::MissingHeader)
    } else {
        let division = be_u16(data, 12);
        if division >= 0x8000 {
            Err(ParseError::SmpteUnsupported)
        } else if division == 0 {
            Err(ParseError::InvalidTicksPerQuarter)
        } else {
            match spec_tracks(data, 8 + be_u32(data, 4), be_u16(data, 10)) {
                Err(e) => Err(e),
                Ok(raw) => Ok(
                    build_midi(
                        raw,
                        spec_tracks_texts(data, 8 + be_u32(data, 4), be_u16(data, 10)),
                        data,
                        be_u16(data, 8) as u16,
                        division as u32,
                    ),
                ),
            }
        }
    }
}

// ─────────────────────────────────────────────
// Parsing, step by step
// ─────────────────────────────────────────────

/// Reads the events of up to `num_tracks` track chunks starting at `8 + header_len`;
/// their text events go to `texts`, with their places in the file.
fn read_tracks(data: &[u8], header_len: u32, num_tracks: u16, texts: &mut Vec<TextRef>) -> (r: Result<Vec<RawEvent>, ParseError>)
    ensures
        match spec_tracks(data@, 8 + header_len, num_tracks as int) {
            Ok(s) => r is Ok && r->Ok_0@ == s,
            Err(e) => r == Err::<Vec<RawEvent>, ParseError>(e),
        },
        r is Ok ==> final(texts)@ == old(texts)@ + spec_tracks_texts(data@, 8 + header_len, num_tracks as int),
{
    let len = data.len();
    let mut all: Vec<RawEvent> = Vec::new();
    let ghost texts_init = texts@;
    if len < 16 || header_len as usize > len - 16 {
        assert(texts@ + Seq::<TextRef>::empty() =~= texts@);
        return Ok(all);
    }
    let mut offset: usize = 8 + header_len as usize;
    let mut t: u16 = 0;
    let mut stop = false;
    assert(all@ + spec_tracks(data@, offset as int, num_tracks as int)->Ok_0 =~= spec_tracks(data@, offset as int, num_tracks as int)->Ok_0);
    while !stop && t < num_tracks
        invariant
            len == data@.len(),
            len >= 16,
            offset <= len,
            t <= num_tracks,
            stop ==> spec_tracks(data@, 8 + header_len, num_tracks as int) == Ok::<Seq<RawEvent>, ParseError>(all@),
            !stop ==> prefix_result(all@, spec_tracks(data@, offset as int, num_tracks - t))
                == spec_tracks(data@, 8 + header_len, num_tracks as int),
            stop ==> texts@ == texts_init + spec_tracks_texts(data@, 8 + header_len, num_tracks as int),
            !stop ==> texts@ + spec_tracks_texts(data@, offset as int, num_tracks - t)
                == texts_init + spec_tracks_texts(data@, 8 + header_len, num_tracks as int),
        decreases num_tracks - t, !stop as int,
    {
        let ghost off0 = offset as int;
        let ghost all0 = all@;
        let ghost texts0 = texts@;
        if offset > len - 8 {
            stop = true;
            proof {
                assert(all0 + Seq::<RawEvent>::empty() =~= all0);
                assert(texts0 + Seq::<TextRef>::empty() =~= texts0);
            }
        } else {
            if !(data[offset] == 0x4D && data[offset + 1] == 0x54 && data[offset + 2] == 0x72
                && data[offset + 3] == 0x6B) {
                return Err(ParseError::ExpectedTrackChunk);
            }
            let track_len = match read_u32_be(data, offset + 4) {
                Ok(v) => v as usize,
                Err(e) => return Err(e),
            };
            let start = offset + 8;
            if track_len > len - start {
                return Err(ParseError::TrackExceedsFile);
            }
            let end = start + track_len;
            let body = &data[start..end];
            let mut track_texts: Vec<TextRef> = Vec::new();
            let mut track = match parse_track(body, &mut track_texts) {
                Ok(v) => v,
                Err(e) => return Err(e),
            };
            let ghost tr = track@;
            all.append(&mut track);
            proof {
                lemma_track_texts_in(body@, 0, 0, 0);
                assert(track_texts@ =~= spec_parse_track_texts(body@));
            }
            let mut j: usize = 0;
            assert(shift_texts(track_texts@.take(0), start as int) =~= Seq::<TextRef>::empty());
            assert(texts@ + Seq::<TextRef>::empty() =~= texts@);
            while j < track_texts.len()
                invariant
                    j <= track_texts@.len(),
                    track_texts@ == spec_parse_track_texts(body@),
                    body@.len() == end - start,
                    end <= len,
                    len == data@.len(),
                    forall|k: int| 0 <= k < track_texts@.len() ==> text_in(#[trigger] track_texts@[k], body@),
                    texts@ == texts0 + shift_texts(track_texts@.take(j as int), start as int),
                decreases track_texts@.len() - j,
            {
                let tr_text = track_texts[j];
                assert(text_in(track_texts@[j as int], body@));
                texts.push(TextRef { tick: tr_text.tick, text_type: tr_text.text_type, start: tr_text.start + start, len: tr_text.len });
                proof {
                    assert(shift_texts(track_texts@.take(j + 1), start as int) =~= shift_texts(track_texts@.take(j as int), start as int).push(
                        TextRef { tick: tr_text.tick, text_type: tr_text.text_type, start: (tr_text.start + start) as usize, len: tr_text.len },
                    ));
                }
                j = j + 1;
            }
            offset = end;
            t = t + 1;
            proof {
                lemma_prefix_result_assoc(all0, tr, spec_tracks(data@, offset as int, num_tracks - t));
                assert(track_texts@.take(track_texts@.len() as int) =~= track_texts@);
                let sh = shift_texts(spec_parse_track_texts(data@.subrange(start as int, end as int)), start as int);
                assert(body@ =~= data@.subrange(start as int, end as int));
                assert(texts@ == texts0 + sh);
                assert(texts0 + sh + spec_tracks_texts(data@, offset as int, num_tracks - t)
                    =~= texts0 + (sh + spec_tracks_texts(data@, offset as int, num_tracks - t)));
            }
        }
    }
    proof {
        if !stop {
            assert(all@ + Seq::<RawEvent>::empty() =~= all@);
            assert(texts@ + Seq::<TextRef>::empty() =~= texts@);
        }
    }
    Ok(all)
}

/// Builds the tempo map from events sorted by (tick, priority).
fn build_tempo_map(events: &Vec<RawEvent>) -> (r: Vec<(u32, u32)>)
    ensures
        r@ == tempo_map_from(events@),
{
    let mut map: Vec<(u32, u32)> = vec![(0u32, DEFAULT_TEMPO)];
    let mut i: usize = 0;
    assert(events@.take(0) =~= Seq::<RawEvent>::empty());
    assert(map@ =~= seq![(0u32, DEFAULT_TEMPO)]);
    while i < events.len()
        invariant
            i <= events@.len(),
            map@ == tempo_map_from(events@.take(i as int)),
            map@.len() >= 1,
        decreases events@.len() - i,
    {
        let ev = events[i];
        proof {
            assert(events@.take(i + 1).drop_last() =~= events@.take(i as int));
        }
        match ev.event_type {
            RawEventType::SetTempo { us_per_beat } => {
                if ev.tick == 0 {
                    map.set(0, (0u32, us_per_beat));
                } else {
                    map.push((ev.tick, us_per_beat));
                }
            },
            _ => {},
        }
        i = i + 1;
    }
    assert(events@.take(events@.len() as int) =~= events@);
    map
}

/// The low nibble of a byte is a channel number.
pub proof fn lemma_low_nibble(x: u8)
    ensures
        (x & 0x0Fu8) < 16,
{
    assert((x & 0x0Fu8) < 16) by (bit_vector);
}

/// A note whose start and length both stay below 2^64 time units.
pub open spec fn note_bounded(n: NoteEvent) -> bool {
    n.time_units < 0x1_0000_0000_0000_0000u128 && n.duration_units < 0x1_0000_0000_0000_0000u128
}

proof fn lemma_match_fold_bounded(evs: Seq<RawEvent>, map: Seq<(u32, u32)>)
    requires
        tempo_map_sorted(map),
    ensures
        forall|k: int| 0 <= k < match_fold(evs, map).notes.len() ==> note_bounded(#[trigger] match_fold(evs, map).notes[k]),
    decreases evs.len(),
{
    if evs.len() > 0 {
        lemma_match_fold_bounded(evs.drop_last(), map);
        let st = match_fold(evs.drop_last(), map);
        let e = evs.last();
        let r = match_fold(evs, map).notes;
        if let RawEventType::NoteOff { channel, note } = e.event_type {
            lemma_first_pending_from_range(st.pending, channel, note, 0);
            let i = first_pending_from(st.pending, channel, note, 0);
            if 0 <= i < st.pending.len() {
                let p = st.pending[i];
                lemma_sorted_map_defined(p.tick, map);
                lemma_sorted_map_defined(e.tick, map);
                lemma_ticks_to_units_bound(p.tick, map);
                lemma_ticks_to_units_bound(e.tick, map);
                assert forall|k: int| 0 <= k < r.len() implies note_bounded(#[trigger] r[k]) by {
                    if k < st.notes.len() {
                        assert(r[k] == st.notes[k]);
                    }
                }
            } else {
                assert(r == st.notes);
            }
        } else {
            assert(r == st.notes);
        }
    }
}

proof fn lemma_match_fold_controls_bounded(evs: Seq<RawEvent>, map: Seq<(u32, u32)>)
    requires
        tempo_map_sorted(map),
    ensures
        forall|k: int| 0 <= k < match_fold(evs, map).controls.len() ==> #[trigger] match_fold(evs, map).controls[k].time_units
            < 0x1_0000_0000_0000_0000u128,
    decreases evs.len(),
{
    if evs.len() > 0 {
        lemma_match_fold_controls_bounded(evs.drop_last(), map);
        let st = match_fold(evs.drop_last(), map);
        let e = evs.last();
        let r = match_fold(evs, map).controls;
        lemma_sorted_map_defined(e.tick, map);
        lemma_ticks_to_units_bound(e.tick, map);
        assert forall|k: int| 0 <= k < r.len() implies #[trigger] r[k].time_units < 0x1_0000_0000_0000_0000u128 by {
            if k < st.controls.len() {
                assert(r[k] == st.controls[k]);
            }
        }
    }
}

proof fn lemma_first_pending_from_range(p: Seq<PendingNote>, channel: u8, note: u8, j: int)
    requires
        0 <= j,
    ensures
        0 <= first_pending_from(p, channel, note, j) <= p.len(),
    decreases p.len() - j,
{
    if j < p.len() && !(p[j].channel == channel && p[j].note == note) {
        lemma_first_pending_from_range(p, channel, note, j + 1);
    }
}

proof fn lemma_all_notes_bounded(evs: Seq<RawEvent>, map: Seq<(u32, u32)>, tpq: u32)
    requires
        tempo_map_sorted(map),
    ensures
        forall|k: int| 0 <= k < all_notes(evs, map, tpq).len() ==> note_bounded(#[trigger] all_notes(evs, map, tpq)[k]),
{
    lemma_match_fold_bounded(evs, map);
    let st = match_fold(evs, map);
    let a = all_notes(evs, map, tpq);
    assert forall|k: int| 0 <= k < a.len() implies note_bounded(#[trigger] a[k]) by {
        if k < st.notes.len() {
            assert(a[k] == st.notes[k]);
        } else {
            let p = st.pending[k - st.notes.len()];
            lemma_sorted_map_defined(p.tick, map);
            lemma_ticks_to_units_bound(p.tick, map);
            assert(a[k] == unclosed_note(p, map, tpq));
        }
    }
}

/// Pairs Note On and Note Off events (FIFO per channel and note) and collects the
/// control events; returns all notes (closed ones first, then the open ones) and
/// the control events.
fn pair_events(events: &Vec<RawEvent>, map: &Vec<(u32, u32)>, tpq: u32) -> (r: (Vec<NoteEvent>, Vec<MidiControlEvent>))
    requires
        tempo_map_sorted(map@),
    ensures
        r.0@ == all_notes(events@, map@, tpq),
        r.1@ == match_fold(events@, map@).controls,
        forall|k: int| 0 <= k < r.0@.len() ==> note_bounded(#[trigger] r.0@[k]),
{
    let mut pending: Vec<PendingNote> = Vec::new();
    let mut bank: Vec<u8> = vec![0u8; 16];
    let mut program: Vec<u8> = vec![0u8; 16];
    let mut notes: Vec<NoteEvent> = Vec::new();
    let mut controls: Vec<MidiControlEvent> = Vec::new();
    let mut i: usize = 0;
    assert(events@.take(0) =~= Seq::<RawEvent>::empty());
    assert(bank@ =~= Seq::new(16, |i: int| 0u8));
    assert(program@ =~= Seq::new(16, |i: int| 0u8));
    while i < events.len()
        invariant
            i <= events@.len(),
            tempo_map_sorted(map@),
            ({
                let st = match_fold(events@.take(i as int), map@);
                &&& pending@ == st.pending
                &&& bank@ == st.bank
                &&& program@ == st.program
                &&& notes@ == st.notes
                &&& controls@ == st.controls
            }),
            bank@.len() == 16,
            program@.len() == 16,
            forall|k: int| 0 <= k < notes@.len() ==> note_bounded(#[trigger] notes@[k]),
        decreases events@.len() - i,
    {
        let ev = events[i];
        proof {
            assert(events@.take(i + 1).drop_last() =~= events@.take(i as int));
            assert(events@.take(i + 1).last() == ev);
            lemma_sorted_map_defined(ev.tick, map@);
            match ev.event_type {
                RawEventType::ControlChange { channel, .. } => lemma_low_nibble(channel),
                RawEventType::ProgramChange { channel, .. } => lemma_low_nibble(channel),
                RawEventType::NoteOn { channel, .. } => lemma_low_nibble(channel),
                _ => {},
            }
        }
        match ev.event_type {
            RawEventType::ControlChange { channel, controller, value } => {
                if controller == 0 {
                    bank.set((channel & 0x0F) as usize, value);
                }
                let time_units = ticks_to_units(ev.tick, map.as_slice());
                controls.push(MidiControlEvent { tick: ev.tick, time_units, channel, command: 0xB0, data1: controller, data2: value });
            },
            RawEventType::ProgramChange { channel, program: prog } => {
                program.set((channel & 0x0F) as usize, prog);
                let time_units = ticks_to_units(ev.tick, map.as_slice());
                controls.push(MidiControlEvent { tick: ev.tick, time_units, channel, command: 0xC0, data1: prog, data2: 0 });
            },
            RawEventType::PitchBend { channel, value } => {
                let time_units = ticks_to_units(ev.tick, map.as_slice());
                controls.push(MidiControlEvent {
                    tick: ev.tick,
                    time_units,
                    channel,
                    command: 0xE0,
                    data1: (value & 0x7F) as u8,
                    data2: (value >> 7u16) as u8,
                });
            },
            RawEventType::NoteOn { channel, note, velocity } => {
                let idx = (channel & 0x0F) as usize;
                pending.push(PendingNote { tick: ev.tick, channel, note, velocity, bank: bank[idx], program: program[idx] });
            },
            RawEventType::NoteOff { channel, note } => {
                let mut j: usize = 0;
                while j < pending.len() && !(pending[j].channel == channel && pending[j].note == note)
                    invariant
                        j <= pending@.len(),
                        first_pending_from(pending@, channel, note, 0) == first_pending_from(pending@, channel, note, j as int),
                    decreases pending@.len() - j,
                {
                    j = j + 1;
                }
                if j < pending.len() {
                    let p = pending.remove(j);
                    proof {
                        lemma_sorted_map_defined(p.tick, map@);
                    }
                    let start = ticks_to_units(p.tick, map.as_slice());
                    let end = ticks_to_units(ev.tick, map.as_slice());
                    notes.push(NoteEvent {
                        tick: p.tick,
                        time_units: start,
                        channel: p.channel,
                        note: p.note,
                        velocity: p.velocity,
                        duration_tick: ev.tick.saturating_sub(p.tick),
                        duration_units: end.saturating_sub(start),
                        bank: p.bank,
                        program: p.program,
                    });
                }
            },
            _ => {},
        }
        i = i + 1;
    }
    assert(events@.take(events@.len() as int) =~= events@);
    let ghost closed = notes@;
    let ghost open = pending@;
    let mut k: usize = 0;
    while k < pending.len()
        invariant
            k <= pending@.len(),
            pending@ == open,
            tempo_map_sorted(map@),
            notes@ == closed + open.take(k as int).map_values(|p: PendingNote| unclosed_note(p, map@, tpq)),
            forall|q: int| 0 <= q < notes@.len() ==> note_bounded(#[trigger] notes@[q]),
        decreases pending@.len() - k,
    {
        let p = pending[k];
        proof {
            lemma_sorted_map_defined(p.tick, map@);
            assert(open.take(k + 1).map_values(|p: PendingNote| unclosed_note(p, map@, tpq))
                =~= open.take(k as int).map_values(|p: PendingNote| unclosed_note(p, map@, tpq)).push(unclosed_note(p, map@, tpq)));
        }
        let time_units = ticks_to_units(p.tick, map.as_slice());
        notes.push(NoteEvent {
            tick: p.tick,
            time_units,
            channel: p.channel,
            note: p.note,
            velocity: p.velocity,
            duration_tick: tpq / 4,
            duration_units: (tpq as u128) * 125_000,
            bank: p.bank,
            program: p.program,
        });
        k = k + 1;
    }
    assert(open.take(open.len() as int) =~= open);
    (notes, controls)
}

proof fn lemma_sorted_texts_in(refs: Seq<TextRef>, data: Seq<u8>)
    requires
        forall|k: int| 0 <= k < refs.len() ==> text_in(#[trigger] refs[k], data),
    ensures
        forall|k: int| 0 <= k < stable_sort(refs).len() ==> text_in(#[trigger] stable_sort(refs)[k], data),
{
    broadcast use vstd::seq_lib::group_to_multiset_ensures;

    lemma_stable_sort_ensures(refs);
    let s = stable_sort(refs);
    assert forall|k: int| 0 <= k < s.len() implies text_in(#[trigger] s[k], data) by {
        let x = s[k];
        assert(s.contains(x));
        assert(s.to_multiset().count(x) > 0);
        assert(refs.to_multiset().count(x) > 0);
        assert(refs.contains(x));
        let j = choose|j: int| 0 <= j < refs.len() && refs[j] == x;
        assert(text_in(refs[j], data));
    }
}

/// Reads the text events placed by `refs` in `data`: their times under `map` and
/// their texts.
fn meta_texts(refs: &Vec<TextRef>, data: &[u8], map: &Vec<(u32, u32)>) -> (r: Vec<MetaText>)
    requires
        tempo_map_sorted(map@),
        forall|k: int| 0 <= k < refs@.len() ==> text_in(#[trigger] refs@[k], data@),
    ensures
        r@.map_values(|t: MetaText| t@) == refs@.map_values(|t: TextRef| meta_text_of(t, data@, map@)),
{
    let mut out: Vec<MetaText> = Vec::new();
    let mut i: usize = 0;
    while i < refs.len()
        invariant
            i <= refs@.len(),
            out@.len() == i,
            tempo_map_sorted(map@),
            forall|k: int| 0 <= k < refs@.len() ==> text_in(#[trigger] refs@[k], data@),
            forall|k: int| 0 <= k < i ==> #[trigger] out@[k]@ == meta_text_of(refs@[k], data@, map@),
        decreases refs@.len() - i,
    {
        let x = refs[i];
        assert(x == refs@[i as int]);
        assert(text_in(x, data@));
        assert(x.start + x.len <= data@.len());
        assert(data@.len() == data.len());
        proof {
            lemma_sorted_map_defined(x.tick, map@);
        }
        let time_units = ticks_to_units(x.tick, map.as_slice());
        let bytes = &data[x.start..x.start + x.len];
        let text = crate::encoding_to_utf8(bytes);
        proof {
            assert(bytes@ =~= data@.subrange(x.start as int, x.start + x.len));
        }
        out.push(MetaText { tick: x.tick, time_units, text_type: x.text_type, text });
        i = i + 1;
    }
    assert(out@.map_values(|t: MetaText| t@) =~= refs@.map_values(|t: TextRef| meta_text_of(t, data@, map@)));
    out
}

/// The latest note end among bounded notes (0 when there is none).
fn latest_note_end(notes: &Vec<NoteEvent>) -> (r: u128)
    requires
        forall|k: int| 0 <= k < notes@.len() ==> note_bounded(#[trigger] notes@[k]),
    ensures
        r == max_note_end(notes@),
        r < 0x2_0000_0000_0000_0000u128,
{
    let mut m: u128 = 0;
    let mut i: usize = 0;
    assert(notes@.take(0) =~= Seq::<NoteEvent>::empty());
    while i < notes.len()
        invariant
            i <= notes@.len(),
            forall|k: int| 0 <= k < notes@.len() ==> note_bounded(#[trigger] notes@[k]),
            m == max_note_end(notes@.take(i as int)),
            m < 0x2_0000_0000_0000_0000u128,
        decreases notes@.len() - i,
    {
        let n = notes[i];
        proof {
            assert(note_bounded(notes@[i as int]));
            assert(notes@.take(i + 1).drop_last() =~= notes@.take(i as int));
        }
        let e = n.time_units + n.duration_units;
        if e > m {
            m = e;
        }
        i = i + 1;
    }
    assert(notes@.take(notes@.len() as int) =~= notes@);
    m
}

/// Parses a Standard MIDI File (format 0 or 1; SMPTE division is refused).
///
/// The events of all tracks are merged and ordered by tick, and within a tick:
/// Note Off, Set Tempo, Program Change, Control Change / Pitch Bend, Note On.
/// Note On and Note Off are paired first in, first out for each channel and note;
/// a Note On of velocity 0 is a Note Off; a note never closed lasts a sixteenth
/// of a beat (0.125 s). Notes come out sorted by start tick; the song lasts until
/// the latest note end plus 1.5 s. Time signatures and text meta events (0x01 to
/// 0x07, read as UTF-8, else as Shift_JIS) come out sorted by tick, with their times.
pub fn parse(data: &[u8]) -> (r: Result<MidiData, ParseError>)
    ensures
        match spec_parse(data@) {
            Ok(m) => r is Ok && r->Ok_0@ == m,
            Err(e) => r is Err && r->Err_0 == e,
        },
{
    if data.len() < 14 {
        return Err(ParseError::FileTooShort);
    }
    if !(data[0] == 0x4D && data[1] == 0x54 && data[2] == 0x68 && data[3] == 0x64) {
        return Err(ParseError::MissingHeader);
    }
    let header_len = match read_u32_be(data, 4) {
        Ok(v) => v,
        Err(e) => return Err(e),
    };
    let format = match read_u16_be(data, 8) {
        Ok(v) => v,
        Err(e) => return Err(e),
    };
    let num_tracks = match read_u16_be(data, 10) {
        Ok(v) => v,
        Err(e) => return Err(e),
    };
    let division = match read_u16_be(data, 12) {
        Ok(v) => v,
        Err(e) => return Err(e),
    };
    if division >= 0x8000 {
        return Err(ParseError::SmpteUnsupported);
    }
    let tpq = division as u32;
    if tpq == 0 {
        return Err(ParseError::InvalidTicksPerQuarter);
    }
    let mut text_refs: Vec<TextRef> = Vec::new();
    let raw = match read_tracks(data, header_len, num_tracks, &mut text_refs) {
        Ok(v) => v,
        Err(e) => return Err(e),
    };
    let events = sort_stable(&raw);
    proof {
        lemma_stable_sort_ensures(raw@);
        lemma_tempo_map_from_shape(events@);
    }
    let tempo_map = build_tempo_map(&events);
    let (all, control_events) = pair_events(&events, &tempo_map, tpq);
    let latest = latest_note_end(&all);
    let notes = sort_stable(&all);
    let duration_units = latest + (tpq as u128) * 1_500_000;
    let sorted_refs = sort_stable(&text_refs);
    proof {
        assert(text_refs@ =~= spec_tracks_texts(data@, 8 + header_len, num_tracks as int));
        lemma_tracks_texts_in(data@, 8 + header_len, num_tracks as int);
        lemma_sorted_texts_in(text_refs@, data@);
    }
    let texts = meta_texts(&sorted_refs, data, &tempo_map);
    let time_signatures = time_signatures(&events, &tempo_map);
    Ok(MidiData { format, ticks_per_quarter: tpq, notes, control_events, duration_units, tempo_map, texts, time_signatures })
}

// ─────────────────────────────────────────────
// Properties of a parse result
// ─────────────────────────────────────────────

proof fn lemma_max_note_end_ge(notes: Seq<NoteEvent>, k: int)
    requires
        0 <= k < notes.len(),
    ensures
        notes[k].time_units + notes[k].duration_units <= max_note_end(notes),
    decreases notes.len(),
{
    if k < notes.len() - 1 {
        lemma_max_note_end_ge(notes.drop_last(), k);
    }
}

/// The notes of a parse result are sorted by start tick, and the song lasts at
/// least 1.5 s beyond the end of every note.
pub proof fn lemma_parse_notes_sorted_and_covered(data: Seq<u8>)
    requires
        spec_parse(data) is Ok,
    ensures
        ({
            let m = spec_parse(data)->Ok_0;
            &&& forall|i: int, j: int| 0 <= i <= j < m.notes.len() ==> #[trigger] m.notes[i].tick
                <= #[trigger] m.notes[j].tick
            &&& forall|i: int| 0 <= i < m.notes.len() ==> #[trigger] m.notes[i].time_units
                + m.notes[i].duration_units + m.ticks_per_quarter * 1_500_000 <= m.duration_units
            &&& forall|i: int| 0 <= i < m.notes.len() ==> note_bounded(#[trigger] m.notes[i])
            &&& 0 < m.ticks_per_quarter < 0x8000
            &&& m.duration_units < 0x4_0000_0000_0000_0000int
        }),
{
    let m = spec_parse(data)->Ok_0;
    let raw = spec_tracks(data, 8 + be_u32(data, 4), be_u16(data, 10))->Ok_0;
    let evs = stable_sort(raw);
    let map = tempo_map_from(evs);
    let all = all_notes(evs, map, m.ticks_per_quarter);
    lemma_stable_sort_ensures(all);
    assert forall|i: int, j: int| 0 <= i <= j < m.notes.len() implies #[trigger] m.notes[i].tick
        <= #[trigger] m.notes[j].tick by {
        assert(m.notes[i].sort_key() <= m.notes[j].sort_key());
    }
    assert forall|i: int| 0 <= i < m.notes.len() implies #[trigger] m.notes[i].time_units
        + m.notes[i].duration_units + m.ticks_per_quarter * 1_500_000 <= m.duration_units by {
        broadcast use vstd::seq_lib::group_to_multiset_ensures;

        let n = m.notes[i];
        assert(m.notes.contains(n));
        assert(m.notes.to_multiset().count(n) > 0);
        assert(all.to_multiset().count(n) > 0);
        assert(all.contains(n));
        let k = choose|k: int| 0 <= k < all.len() && all[k] == n;
        lemma_max_note_end_ge(all, k);
    }
    lemma_stable_sort_ensures(raw);
    lemma_tempo_map_from_shape(evs);
    lemma_all_notes_bounded(evs, map, m.ticks_per_quarter);
    assert forall|i: int| 0 <= i < m.notes.len() implies note_bounded(#[trigger] m.notes[i]) by {
        broadcast use vstd::seq_lib::group_to_multiset_ensures;

        let n = m.notes[i];
        assert(m.notes.contains(n));
        assert(m.notes.to_multiset().count(n) > 0);
        assert(all.to_multiset().count(n) > 0);
        assert(all.contains(n));
        let k = choose|k: int| 0 <= k < all.len() && all[k] == n;
        assert(note_bounded(all[k]));
    }
    lemma_max_note_end_bound(all);
}

proof fn lemma_max_note_end_bound(notes: Seq<NoteEvent>)
    requires
        forall|k: int| 0 <= k < notes.len() ==> note_bounded(#[trigger] notes[k]),
    ensures
        0 <= max_note_end(notes) < 0x2_0000_0000_0000_0000int,
    decreases notes.len(),
{
    if notes.len() > 0 {
        assert(note_bounded(notes[notes.len() - 1]));
        lemma_max_note_end_bound(notes.drop_last());
    }
}

/// The tempo map of a parse result starts at tick 0 and is sorted by tick.
pub proof fn lemma_parse_tempo_map_sorted(data: Seq<u8>)
    requires
        spec_parse(data) is Ok,
    ensures
        spec_parse(data)->Ok_0.tempo_map.len() >= 1,
        spec_parse(data)->Ok_0.tempo_map[0].0 == 0,
        tempo_map_sorted(spec_parse(data)->Ok_0.tempo_map),
{
    let raw = spec_tracks(data, 8 + be_u32(data, 4), be_u16(data, 10))->Ok_0;
    lemma_stable_sort_ensures(raw);
    lemma_tempo_map_from_shape(stable_sort(raw));
}

/// The text events of a parse result are sorted by tick, are of types 0x01 to 0x07,
/// and each one's time is its tick's time under the tempo map (below 2^64 units).
pub proof fn lemma_parse_texts(data: Seq<u8>)
    requires
        spec_parse(data) is Ok,
    ensures
        ({
            let m = spec_parse(data)->Ok_0;
            &&& forall|i: int, j: int| 0 <= i <= j < m.texts.len() ==> #[trigger] m.texts[i].tick
                <= #[trigger] m.texts[j].tick
            &&& forall|i: int| 0 <= i < m.texts.len() ==> 0x01 <= #[trigger] m.texts[i].text_type <= 0x07
            &&& forall|i: int| 0 <= i < m.texts.len() ==> #[trigger] m.texts[i].time_units
                == spec_ticks_to_units(m.texts[i].tick, m.tempo_map)
            &&& forall|i: int| 0 <= i < m.texts.len() ==> #[trigger] m.texts[i].time_units
                < 0x1_0000_0000_0000_0000u128
        }),
{
    let m = spec_parse(data)->Ok_0;
    let refs = spec_tracks_texts(data, 8 + be_u32(data, 4), be_u16(data, 10));
    let sorted = stable_sort(refs);
    lemma_tracks_texts_in(data, 8 + be_u32(data, 4), be_u16(data, 10));
    lemma_sorted_texts_in(refs, data);
    lemma_stable_sort_ensures(refs);
    let raw = spec_tracks(data, 8 + be_u32(data, 4), be_u16(data, 10))->Ok_0;
    lemma_stable_sort_ensures(raw);
    lemma_tempo_map_from_shape(stable_sort(raw));
    assert forall|i: int, j: int| 0 <= i <= j < m.texts.len() implies #[trigger] m.texts[i].tick
        <= #[trigger] m.texts[j].tick by {
        assert(sorted[i].sort_key() <= sorted[j].sort_key());
    }
    assert forall|i: int| 0 <= i < m.texts.len() implies 0x01 <= #[trigger] m.texts[i].text_type <= 0x07 by {
        assert(text_in(sorted[i], data));
    }
    assert forall|i: int| 0 <= i < m.texts.len() implies #[trigger] m.texts[i].time_units
        == spec_ticks_to_units(m.texts[i].tick, m.tempo_map) && m.texts[i].time_units
        < 0x1_0000_0000_0000_0000u128 by {
        lemma_sorted_map_defined(sorted[i].tick, m.tempo_map);
        lemma_ticks_to_units_bound(sorted[i].tick, m.tempo_map);
    }
}

/// The time signatures of a parse result are sorted by tick, and each one's time
/// is its tick's time under the tempo map (below 2^64 units).
pub proof fn lemma_parse_time_signatures(data: Seq<u8>)
    requires
        spec_parse(data) is Ok,
    ensures
        ({
            let m = spec_parse(data)->Ok_0;
            &&& forall|i: int, j: int| 0 <= i <= j < m.time_signatures.len() ==> #[trigger] m.time_signatures[i].tick
                <= #[trigger] m.time_signatures[j].tick
            &&& forall|i: int| 0 <= i < m.time_signatures.len() ==> #[trigger] m.time_signatures[i].time_units
                == spec_ticks_to_units(m.time_signatures[i].tick, m.tempo_map)
            &&& forall|i: int| 0 <= i < m.time_signatures.len() ==> #[trigger] m.time_signatures[i].time_units
                < 0x1_0000_0000_0000_0000u128
        }),
{
    let m = spec_parse(data)->Ok_0;
    let raw = spec_tracks(data, 8 + be_u32(data, 4), be_u16(data, 10))->Ok_0;
    let evs = stable_sort(raw);
    lemma_stable_sort_ensures(raw);
    lemma_tempo_map_from_shape(evs);
    lemma_time_signatures_from(evs, m.tempo_map);
    assert forall|i: int| 0 <= i < m.time_signatures.len() implies #[trigger] m.time_signatures[i].time_units
        == spec_ticks_to_units(m.time_signatures[i].tick, m.tempo_map) && m.time_signatures[i].time_units
        < 0x1_0000_0000_0000_0000u128 by {
        lemma_sorted_map_defined(m.time_signatures[i].tick, m.tempo_map);
        lemma_ticks_to_units_bound(m.time_signatures[i].tick, m.tempo_map);
    }
}

/// The control events of a parse result have times below 2^64 units.
pub proof fn lemma_parse_controls_bounded(data: Seq<u8>)
    requires
        spec_parse(data) is Ok,
    ensures
        forall|i: int| 0 <= i < spec_parse(data)->Ok_0.control_events.len() ==> #[trigger] spec_parse(data)->Ok_0.control_events[i].time_units
            < 0x1_0000_0000_0000_0000u128,
{
    let raw = spec_tracks(data, 8 + be_u32(data, 4), be_u16(data, 10))->Ok_0;
    let evs = stable_sort(raw);
    lemma_stable_sort_ensures(raw);
    lemma_tempo_map_from_shape(evs);
    lemma_match_fold_controls_bounded(evs, tempo_map_from(evs));
}

/// A Note Off on channel `c` for key `k` closes the earliest still-open note of
/// the same channel `c` and the same key `k`, and only it: that note leaves the
/// open notes and becomes a finished note of channel `c` and key `k`, starting
/// where it started and ending at the Note Off. When no open note has that
/// channel and key, nothing changes.
pub proof fn lemma_note_off_closes_own_note(st: MatchState, e: RawEvent, map: Seq<(u32, u32)>)
    requires
        e.event_type is NoteOff,
    ensures
        ({
            let c = e.event_type->NoteOff_channel;
            let k = e.event_type->NoteOff_note;
            let st2 = match_step(st, e, map);
            &&& (forall|i: int| 0 <= i < st.pending.len() ==> !(#[trigger] st.pending[i].channel == c && st.pending[i].note == k))
                ==> st2 == st
            &&& forall|i: int|
                0 <= i < st.pending.len() && #[trigger] st.pending[i].channel == c && st.pending[i].note == k
                    && (forall|j: int| 0 <= j < i ==> !(st.pending[j].channel == c && st.pending[j].note == k)) ==> {
                    let p = st.pending[i];
                    let n = st2.notes.last();
                    &&& st2.pending == st.pending.remove(i)
                    &&& st2.notes.len() == st.notes.len() + 1
                    &&& st2.notes.drop_last() == st.notes
                    &&& n.channel == c
                    &&& n.note == k
                    &&& n.tick == p.tick
                    &&& n.velocity == p.velocity
                    &&& n.duration_tick == (if e.tick >= p.tick { e.tick - p.tick } else { 0 })
                    &&& n.time_units == spec_ticks_to_units(p.tick, map) as u128
                    &&& st2.controls == st.controls
                }
        }),
{
    let c = e.event_type->NoteOff_channel;
    let k = e.event_type->NoteOff_note;
    lemma_first_pending_from_range(st.pending, c, k, 0);
    lemma_first_pending_is_earliest(st.pending, c, k, 0);
    let st2 = match_step(st, e, map);
    assert forall|i: int|
        0 <= i < st.pending.len() && #[trigger] st.pending[i].channel == c && st.pending[i].note == k
            && (forall|j: int| 0 <= j < i ==> !(st.pending[j].channel == c && st.pending[j].note == k)) implies {
            let p = st.pending[i];
            let n = st2.notes.last();
            &&& st2.pending == st.pending.remove(i)
            &&& st2.notes.len() == st.notes.len() + 1
            &&& st2.notes.drop_last() == st.notes
            &&& n.channel == c
            &&& n.note == k
            &&& n.tick == p.tick
            &&& n.velocity == p.velocity
            &&& n.duration_tick == (if e.tick >= p.tick { e.tick - p.tick } else { 0 })
            &&& n.time_units == spec_ticks_to_units(p.tick, map) as u128
            &&& st2.controls == st.controls
        } by {
        let f = first_pending_from(st.pending, c, k, 0);
        if f < i {
            assert(st.pending[f].channel == c && st.pending[f].note == k);
        }
        assert(f == i);
        assert(st2.notes.drop_last() =~= st.notes);
    }
}

proof fn lemma_first_pending_is_earliest(p: Seq<PendingNote>, channel: u8, note: u8, j: int)
    requires
        0 <= j,
    ensures
        first_pending_from(p, channel, note, j) < p.len() ==> ({
            let f = first_pending_from(p, channel, note, j);
            &&& j <= f
            &&& p[f].channel == channel && p[f].note == note
        }),
        forall|i: int| j <= i < first_pending_from(p, channel, note, j) && i < p.len() ==> !(#[trigger] p[i].channel == channel
            && p[i].note == note),
        first_pending_from(p, channel, note, j) >= p.len() ==> forall|i: int| j <= i < p.len() ==> !(#[trigger] p[i].channel
            == channel && p[i].note == note),
    decreases p.len() - j,
{
    if j < p.len() && !(p[j].channel == channel && p[j].note == note) {
        lemma_first_pending_is_earliest(p, channel, note, j + 1);
    }
}

/// The number of Note On events (of non-zero velocity) among `evs`.
pub open spec fn count_note_ons(evs: Seq<RawEvent>) -> int
    decreases evs.len(),
{
    if evs.len() == 0 {
        0
    } else {
        count_note_ons(evs.drop_last()) + if evs.last().event_type is NoteOn { 1int } else { 0int }
    }
}

proof fn lemma_count_note_ons_insert(s: Seq<RawEvent>, x: RawEvent)
    ensures
        count_note_ons(crate::sort::insert_sorted(s, x)) == count_note_ons(s) + if x.event_type is NoteOn { 1int } else { 0int },
    decreases s.len(),
{
    if s.len() > 0 && s.last().sort_key() > x.sort_key() {
        lemma_count_note_ons_insert(s.drop_last(), x);
        let t = crate::sort::insert_sorted(s.drop_last(), x);
        assert(t.push(s.last()).drop_last() =~= t);
    } else if s.len() > 0 {
        assert(s.push(x).drop_last() =~= s);
    } else {
        assert(seq![x].drop_last() =~= s);
    }
}

/// Sorting keeps the number of Note On events.
proof fn lemma_count_note_ons_sort(s: Seq<RawEvent>)
    ensures
        count_note_ons(stable_sort(s)) == count_note_ons(s),
    decreases s.len(),
{
    if s.len() > 0 {
        lemma_count_note_ons_sort(s.drop_last());
        lemma_count_note_ons_insert(stable_sort(s.drop_last()), s.last());
    }
}

proof fn lemma_match_fold_counts(evs: Seq<RawEvent>, map: Seq<(u32, u32)>)
    ensures
        match_fold(evs, map).notes.len() + match_fold(evs, map).pending.len() == count_note_ons(evs),
    decreases evs.len(),
{
    if evs.len() > 0 {
        lemma_match_fold_counts(evs.drop_last(), map);
        let st = match_fold(evs.drop_last(), map);
        if let RawEventType::NoteOff { channel, note } = evs.last().event_type {
            lemma_first_pending_from_range(st.pending, channel, note, 0);
        }
    }
}

/// Every Note On of the file gives exactly one note: closed by its Note Off, or
/// left open and given a sixteenth of a beat.
pub proof fn lemma_parse_one_note_per_note_on(data: Seq<u8>)
    requires
        spec_parse(data) is Ok,
    ensures
        spec_parse(data)->Ok_0.notes.len() == count_note_ons(
            spec_tracks(data, 8 + be_u32(data, 4), be_u16(data, 10))->Ok_0,
        ),
{
    let m = spec_parse(data)->Ok_0;
    let raw = spec_tracks(data, 8 + be_u32(data, 4), be_u16(data, 10))->Ok_0;
    let evs = stable_sort(raw);
    let map = tempo_map_from(evs);
    let all = all_notes(evs, map, m.ticks_per_quarter);
    lemma_stable_sort_ensures(all);
    lemma_match_fold_counts(evs, map);
    lemma_count_note_ons_sort(raw);
}

/// A decoded event is well-formed: its channel is a low nibble (below 16) and a
/// Note On has a non-zero velocity.
pub open spec fn event_ok(e: RawEvent) -> bool {
    match e.event_type {
        RawEventType::NoteOn { channel, velocity, .. } => channel < 16 && velocity > 0,
        RawEventType::NoteOff { channel, .. } => channel < 16,
        RawEventType::ProgramChange { channel, .. } => channel < 16,
        RawEventType::ControlChange { channel, .. } => channel < 16,
        RawEventType::PitchBend { channel, .. } => channel < 16,
        _ => true,
    }
}

/// All events of `s` are well-formed.
pub open spec fn events_ok(s: Seq<RawEvent>) -> bool {
    forall|i: int| 0 <= i < s.len() ==> event_ok(#[trigger] s[i])
}

proof fn lemma_channel_event_ok(data: Seq<u8>, off: int, tick: u32, status: u8)
    ensures
        spec_channel_event(data, off, tick, status) matches Ok((Some(e), _)) ==> event_ok(e),
{
    lemma_low_nibble(status);
}

proof fn lemma_events_ok_concat(a: Seq<RawEvent>, b: Seq<RawEvent>)
    requires
        events_ok(a),
        events_ok(b),
    ensures
        events_ok(a + b),
{
    assert forall|i: int| 0 <= i < (a + b).len() implies event_ok(#[trigger] (a + b)[i]) by {
        if i < a.len() {
            assert((a + b)[i] == a[i]);
        } else {
            assert((a + b)[i] == b[i - a.len()]);
        }
    }
}

proof fn lemma_track_step_ok(data: Seq<u8>, off: int, tick: u32, rs: u8)
    ensures
        spec_track_step(data, off, tick, rs) matches Ok((evs, _, _, _, _)) ==> events_ok(evs),
{
    lemma_vlq_bounds(data, off);
    if let Ok((delta, p)) = spec_vlq(data, off) {
        let t = sat_add_u32(tick, delta);
        if 0 <= p < data.len() {
            lemma_channel_event_ok(data, p + 1, t, data[p]);
            lemma_channel_event_ok(data, p, t, rs);
            if let Ok((ev, _)) = spec_channel_event(data, p + 1, t, data[p]) {
                lemma_opt_seq_ok(ev);
            }
            if let Ok((ev, _)) = spec_channel_event(data, p, t, rs) {
                lemma_opt_seq_ok(ev);
            }
            if let Ok((ev, _, _)) = spec_meta(data, p + 1, t) {
                lemma_opt_seq_ok(ev);
            }
        }
    }
    assert(events_ok(Seq::<RawEvent>::empty()));
}

proof fn lemma_opt_seq_ok(ev: Option<RawEvent>)
    requires
        ev matches Some(e) ==> event_ok(e),
    ensures
        events_ok(opt_seq(ev)),
{
    if let Some(e) = ev {
        assert(opt_seq(ev)[0] == e);
    }
}

proof fn lemma_track_from_ok(data: Seq<u8>, off: int, tick: u32, rs: u8)
    ensures
        spec_track_from(data, off, tick, rs) matches Ok(s) ==> events_ok(s),
    decreases data.len() - off,
{
    if 0 <= off < data.len() {
        lemma_track_step_ok(data, off, tick, rs);
        if let Ok((evs, next, t, r, stop)) = spec_track_step(data, off, tick, rs) {
            if !stop {
                lemma_track_step_bounds(data, off, tick, rs);
                lemma_track_from_ok(data, next, t, r);
                if let Ok(rest) = spec_track_from(data, next, t, r) {
                    lemma_events_ok_concat(evs, rest);
                }
            }
        }
    }
}

proof fn lemma_tracks_ok(data: Seq<u8>, off: int, remaining: int)
    ensures
        spec_tracks(data, off, remaining) matches Ok(s) ==> events_ok(s),
    decreases remaining,
{
    if remaining > 0 && off + 8 <= data.len() && has_tag(data, off, 0x4D, 0x54, 0x72, 0x6B) {
        let start = off + 8;
        let end = start + be_u32(data, off + 4);
        if end <= data.len() {
            lemma_track_from_ok(data.subrange(start, end), 0, 0, 0);
            lemma_tracks_ok(data, end, remaining - 1);
            if let Ok(evs) = spec_parse_track(data.subrange(start, end)) {
                if let Ok(rest) = spec_tracks(data, end, remaining - 1) {
                    lemma_events_ok_concat(evs, rest);
                }
            }
        }
    }
}

/// A note of a well-formed start: channel below 16, velocity above 0.
pub open spec fn note_ok(n: NoteEvent) -> bool {
    n.channel < 16 && n.velocity > 0
}

proof fn lemma_match_fold_ok(evs: Seq<RawEvent>, map: Seq<(u32, u32)>)
    requires
        events_ok(evs),
    ensures
        forall|k: int| 0 <= k < match_fold(evs, map).pending.len() ==> #[trigger] match_fold(evs, map).pending[k].channel < 16
            && match_fold(evs, map).pending[k].velocity > 0,
        forall|k: int| 0 <= k < match_fold(evs, map).notes.len() ==> note_ok(#[trigger] match_fold(evs, map).notes[k]),
    decreases evs.len(),
{
    if evs.len() > 0 {
        let t = evs.drop_last();
        assert(events_ok(t)) by {
            assert forall|i: int| 0 <= i < t.len() implies event_ok(#[trigger] t[i]) by {
                assert(t[i] == evs[i]);
            }
        }
        lemma_match_fold_ok(t, map);
        let st = match_fold(t, map);
        let e = evs.last();
        assert(event_ok(evs[evs.len() - 1]));
        let r = match_fold(evs, map);
        if let RawEventType::NoteOff { channel, note } = e.event_type {
            lemma_first_pending_from_range(st.pending, channel, note, 0);
            let i = first_pending_from(st.pending, channel, note, 0);
            if i < st.pending.len() {
                assert forall|k: int| 0 <= k < r.pending.len() implies #[trigger] r.pending[k].channel < 16
                    && r.pending[k].velocity > 0 by {
                    if k < i {
                        assert(r.pending[k] == st.pending[k]);
                    } else {
                        assert(r.pending[k] == st.pending[k + 1]);
                    }
                }
                assert forall|k: int| 0 <= k < r.notes.len() implies note_ok(#[trigger] r.notes[k]) by {
                    if k < st.notes.len() {
                        assert(r.notes[k] == st.notes[k]);
                    } else {
                        assert(st.pending[i].channel < 16 && st.pending[i].velocity > 0);
                    }
                }
            }
        } else if let RawEventType::NoteOn { channel, note, velocity } = e.event_type {
            assert forall|k: int| 0 <= k < r.pending.len() implies #[trigger] r.pending[k].channel < 16
                && r.pending[k].velocity > 0 by {
                if k < st.pending.len() {
                    assert(r.pending[k] == st.pending[k]);
                }
            }
        }
    }
}

/// Every note of a parse result has a channel below 16 (the low nibble of its
/// status byte) and a non-zero velocity (a velocity-0 Note On ends a note).
pub proof fn lemma_parse_notes_well_formed(data: Seq<u8>)
    requires
        spec_parse(data) is Ok,
    ensures
        forall|i: int| 0 <= i < spec_parse(data)->Ok_0.notes.len() ==> note_ok(#[trigger] spec_parse(data)->Ok_0.notes[i]),
{
    broadcast use vstd::seq_lib::group_to_multiset_ensures;

    let m = spec_parse(data)->Ok_0;
    let raw = spec_tracks(data, 8 + be_u32(data, 4), be_u16(data, 10))->Ok_0;
    lemma_tracks_ok(data, 8 + be_u32(data, 4), be_u16(data, 10));
    let evs = stable_sort(raw);
    lemma_stable_sort_ensures(raw);
    assert(events_ok(evs)) by {
        assert forall|i: int| 0 <= i < evs.len() implies event_ok(#[trigger] evs[i]) by {
            let e = evs[i];
            assert(evs.contains(e));
            assert(evs.to_multiset().count(e) > 0);
            assert(raw.to_multiset().count(e) > 0);
            assert(raw.contains(e));
            let k = choose|k: int| 0 <= k < raw.len() && raw[k] == e;
            assert(event_ok(raw[k]));
        }
    }
    let map = tempo_map_from(evs);
    lemma_match_fold_ok(evs, map);
    let st = match_fold(evs, map);
    let all = all_notes(evs, map, m.ticks_per_quarter);
    assert forall|k: int| 0 <= k < all.len() implies note_ok(#[trigger] all[k]) by {
        if k < st.notes.len() {
            assert(all[k] == st.notes[k]);
        } else {
            assert(st.pending[k - st.notes.len()].channel < 16);
        }
    }
    lemma_stable_sort_ensures(all);
    assert forall|i: int| 0 <= i < m.notes.len() implies note_ok(#[trigger] m.notes[i]) by {
        let n = m.notes[i];
        assert(m.notes.contains(n));
        assert(m.notes.to_multiset().count(n) > 0);
        assert(all.to_multiset().count(n) > 0);
        assert(all.contains(n));
        let k = choose|k: int| 0 <= k < all.len() && all[k] == n;
        assert(note_ok(all[k]));
    }
}

} // verus!
