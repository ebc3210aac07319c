use sakuramml_player::midi_parser::{
    handle_channel_event, handle_meta, parse, parse_track, read_u16_be, read_u32_be, read_vlq,
    ticks_to_sec, MidiData, NoteEvent, ParseError, RawEvent, RawEventType, TextRef, TimeSec,
};

// ── helpers ─────────────────────────────────────────

fn make_midi(format: u16, tpq: u16, tracks: &[Vec<u8>]) -> Vec<u8> {
    let mut d = Vec::new();
    d.extend_from_slice(b"MThd");
    d.extend_from_slice(&6u32.to_be_bytes());
    d.extend_from_slice(&format.to_be_bytes());
    d.extend_from_slice(&(tracks.len() as u16).to_be_bytes());
    d.extend_from_slice(&tpq.to_be_bytes());
    for t in tracks {
        d.extend_from_slice(b"MTrk");
        d.extend_from_slice(&(t.len() as u32).to_be_bytes());
        d.extend_from_slice(t);
    }
    d
}

fn format0_one_note() -> Vec<u8> {
    let track = vec![
        0x00, 0xFF, 0x51, 0x03, 0x07, 0xA1, 0x20,
        0x00, 0x90, 0x3C, 0x64,
        0x60, 0x80, 0x3C, 0x00,
        0x00, 0xFF, 0x2F, 0x00,
    ];
    make_midi(0, 96, &[track])
}

fn format1_one_note() -> Vec<u8> {
    let tempo_track = vec![
        0x00, 0xFF, 0x51, 0x03, 0x07, 0xA1, 0x20,
        0x00, 0xFF, 0x2F, 0x00,
    ];
    let note_track = vec![
        0x00, 0x90, 0x3C, 0x64,
        0x60, 0x80, 0x3C, 0x00,
        0x00, 0xFF, 0x2F, 0x00,
    ];
    make_midi(1, 96, &[tempo_track, note_track])
}

fn format0_with_drums() -> Vec<u8> {
    let track = vec![
        0x00, 0xFF, 0x51, 0x03, 0x07, 0xA1, 0x20,
        0x00, 0x99, 0x24, 0x7F,
        0x18, 0x89, 0x24, 0x00,
        0x18, 0x99, 0x26, 0x64,
        0x18, 0x89, 0x26, 0x00,
        0x00, 0xFF, 0x2F, 0x00,
    ];
    make_midi(0, 96, &[track])
}

fn secs(t: TimeSec) -> f64 {
    t.num as f64 / t.den as f64
}

fn note_time(m: &MidiData, n: &NoteEvent) -> f64 {
    n.time_units as f64 / m.units_per_sec() as f64
}

fn note_duration(m: &MidiData, n: &NoteEvent) -> f64 {
    n.duration_units as f64 / m.units_per_sec() as f64
}

// ── tests carried over ──────────────────────────────

#[test]
fn test_parse_format0_one_note() {
    let data = format0_one_note();
    let result = parse(&data).expect("parse should succeed");

    assert_eq!(result.format, 0);
    assert_eq!(result.ticks_per_quarter, 96);
    assert_eq!(result.notes.len(), 1);

    let n = &result.notes[0];
    assert_eq!(n.channel, 0);
    assert_eq!(n.note, 60);
    assert_eq!(n.velocity, 100);
    assert_eq!(n.tick, 0);
}

#[test]
fn test_parse_format1_merges_tracks() {
    let data = format1_one_note();
    let result = parse(&data).expect("parse should succeed");

    assert_eq!(result.format, 1);
    assert_eq!(result.notes.len(), 1);
    assert_eq!(result.notes[0].note, 60);
}

#[test]
fn test_note_timing_at_120bpm() {
    let tempo_map = vec![(0u32, 500_000u32)];
    let tpq = 96;

    let t0 = secs(ticks_to_sec(0, &tempo_map, tpq));
    let t1 = secs(ticks_to_sec(96, &tempo_map, tpq));
    let t2 = secs(ticks_to_sec(48, &tempo_map, tpq));

    assert!((t0 - 0.0).abs() < 1e-9, "tick 0 → 0.0 s");
    assert!((t1 - 0.5).abs() < 1e-6, "tick 96 → 0.5 s");
    assert!((t2 - 0.25).abs() < 1e-6, "tick 48 → 0.25 s");
}

#[test]
fn test_note_duration_is_correct() {
    let data = format0_one_note();
    let result = parse(&data).expect("parse");
    let n = &result.notes[0];

    assert!((note_time(&result, n) - 0.0).abs() < 1e-6);
    assert!(
        (note_duration(&result, n) - 0.5).abs() < 0.01,
        "a beat lasts 0.5 s (actual: {})",
        note_duration(&result, n)
    );
}

#[test]
fn test_tempo_change_mid_song() {
    let track = vec![
        0x00, 0xFF, 0x51, 0x03, 0x07, 0xA1, 0x20,
        0x00, 0x90, 0x3C, 0x64,
        0x60, 0x80, 0x3C, 0x00,
        0x00, 0xFF, 0x51, 0x03, 0x0F, 0x42, 0x40,
        0x00, 0x90, 0x40, 0x64,
        0x60, 0x80, 0x40, 0x00,
        0x00, 0xFF, 0x2F, 0x00,
    ];
    let data = make_midi(0, 96, &[track]);
    let result = parse(&data).expect("parse");

    assert_eq!(result.notes.len(), 2);
    let n0 = &result.notes[0];
    let n1 = &result.notes[1];
    assert!((note_time(&result, n0) - 0.0).abs() < 1e-6);
    assert!((note_duration(&result, n0) - 0.5).abs() < 0.01);
    assert!((note_time(&result, n1) - 0.5).abs() < 0.01);
    assert!((note_duration(&result, n1) - 1.0).abs() < 0.02);
}

#[test]
fn test_running_status_noteon() {
    let track = vec![
        0x00, 0x90, 0x3C, 0x64,
        0x00, 0x3E, 0x50,
        0x60, 0x80, 0x3C, 0x00,
        0x60, 0x3E, 0x00,
        0x00, 0xFF, 0x2F, 0x00,
    ];
    let data = make_midi(0, 96, &[track]);
    let result = parse(&data).expect("parse");

    assert_eq!(result.notes.len(), 2, "running status gives two notes");
    let notes: Vec<u8> = result.notes.iter().map(|n| n.note).collect();
    assert!(notes.contains(&60), "C4 is there");
    assert!(notes.contains(&62), "D4 is there");
}

#[test]
fn test_noteon_velocity0_treated_as_noteoff() {
    let track = vec![
        0x00, 0x90, 0x3C, 0x64,
        0x60, 0x90, 0x3C, 0x00,
        0x00, 0xFF, 0x2F, 0x00,
    ];
    let data = make_midi(0, 96, &[track]);
    let result = parse(&data).expect("parse");

    assert_eq!(result.notes.len(), 1);
    assert!((note_duration(&result, &result.notes[0]) - 0.5).abs() < 0.01);
}

#[test]
fn test_drum_channel_parsed_as_ch9() {
    let data = format0_with_drums();
    let result = parse(&data).expect("parse");

    assert!(result.notes.iter().all(|n| n.channel == 9), "drum notes are on ch=9");
    assert_eq!(result.notes.len(), 2);
}

#[test]
fn test_invalid_header_returns_error() {
    let result = parse(b"RIFF\x00\x00\x00\x06\x00\x00\x00\x01\x00\x60");
    assert!(result.is_err(), "an invalid header is an error");
}

#[test]
fn test_too_short_returns_error() {
    let result = parse(b"MThd");
    assert!(result.is_err());
}

#[test]
fn test_smpte_timecode_returns_error() {
    let mut data = format0_one_note();
    data[12] = 0xE7;
    let result = parse(&data);
    assert!(result.is_err(), "SMPTE time code is an error");
}

#[test]
fn test_ticks_to_sec_default_tempo() {
    let tm = vec![(0u32, 500_000u32)];
    let tpq = 480u32;
    let sec = secs(ticks_to_sec(480, &tm, tpq));
    assert!((sec - 0.5).abs() < 1e-9);
}

#[test]
fn test_ticks_to_sec_zero_tpq_returns_zero() {
    let tm = vec![(0u32, 500_000u32)];
    assert_eq!(secs(ticks_to_sec(100, &tm, 0)), 0.0);
}

// ── further cases ───────────────────────────────────

#[test]
fn error_variants_come_from_their_inputs() {
    assert_eq!(parse(b"MThd").err(), Some(ParseError::FileTooShort));
    assert_eq!(
        parse(b"RIFF\x00\x00\x00\x06\x00\x00\x00\x01\x00\x60").err(),
        Some(ParseError::MissingHeader)
    );
    let mut smpte = format0_one_note();
    smpte[12] = 0xE7;
    assert_eq!(parse(&smpte).err(), Some(ParseError::SmpteUnsupported));
    let zero_tpq = make_midi(0, 0, &[vec![0x00, 0xFF, 0x2F, 0x00]]);
    assert_eq!(parse(&zero_tpq).err(), Some(ParseError::InvalidTicksPerQuarter));
    let mut bad_chunk = format0_one_note();
    bad_chunk[14] = b'X';
    assert_eq!(parse(&bad_chunk).err(), Some(ParseError::ExpectedTrackChunk));
    let mut long_track = format0_one_note();
    long_track[21] = 0xFF;
    assert_eq!(parse(&long_track).err(), Some(ParseError::TrackExceedsFile));
    let cut_note = make_midi(0, 96, &[vec![0x00, 0x90, 0x3C]]);
    assert_eq!(parse(&cut_note).err(), Some(ParseError::UnexpectedEndNoteOn));
    let sysex = make_midi(0, 96, &[vec![0x00, 0xF0, 0x05, 0x01]]);
    assert_eq!(parse(&sysex).err(), Some(ParseError::SysExExceedsTrack));
    let meta = make_midi(0, 96, &[vec![0x00, 0xFF, 0x01, 0x05, 0x41]]);
    assert_eq!(parse(&meta).err(), Some(ParseError::MetaExceedsTrack));
    let tempo = make_midi(0, 96, &[vec![0x00, 0xFF, 0x51, 0x03, 0x07]]);
    assert_eq!(parse(&tempo).err(), Some(ParseError::UnexpectedEndSetTempo));
    let vlq = make_midi(0, 96, &[vec![0x81, 0x82, 0x83, 0x84, 0x00]]);
    assert_eq!(parse(&vlq).err(), Some(ParseError::VlqTooLarge));
    assert_eq!(ParseError::VlqTooLarge.message(), "VLQ value too large");
}

#[test]
fn byte_readers() {
    let d = [0x12u8, 0x34, 0x56, 0x78];
    assert_eq!(read_u16_be(&d, 1), Ok(0x3456));
    assert_eq!(read_u16_be(&d, 3), Err(ParseError::UnexpectedEndU16));
    assert_eq!(read_u32_be(&d, 0), Ok(0x1234_5678));
    assert_eq!(read_u32_be(&d, 1), Err(ParseError::UnexpectedEndU32));
    let v = [0x81u8, 0x80, 0x00, 0x7F];
    let mut off = 0usize;
    assert_eq!(read_vlq(&v, &mut off), Ok(0x4000));
    assert_eq!(off, 3);
    assert_eq!(read_vlq(&v, &mut off), Ok(0x7F));
    assert_eq!(off, 4);
    assert_eq!(read_vlq(&v, &mut off), Err(ParseError::UnexpectedEndVlq));
}

#[test]
fn channel_and_meta_events() {
    let mut events = Vec::new();
    let mut off = 0usize;
    let pb = [0x00u8, 0x40];
    handle_channel_event(&mut off, &pb, 7, 0xE3, &mut events).unwrap();
    assert_eq!(off, 2);
    assert_eq!(
        events[0],
        RawEvent { tick: 7, event_type: RawEventType::PitchBend { channel: 3, value: 0x2000 } }
    );
    let mut off = 0usize;
    let tempo = [0x51u8, 0x03, 0x0F, 0x42, 0x40];
    let mut texts = Vec::new();
    assert_eq!(handle_meta(&mut off, &tempo, 9, &mut events, &mut texts), Ok(false));
    assert_eq!(off, 5);
    assert_eq!(
        events[1],
        RawEvent { tick: 9, event_type: RawEventType::SetTempo { us_per_beat: 1_000_000 } }
    );
    let mut off = 0usize;
    let eot = [0x2Fu8, 0x00];
    assert_eq!(handle_meta(&mut off, &eot, 9, &mut events, &mut texts), Ok(true));
    assert!(texts.is_empty());
    let mut off = 0usize;
    let lyric = [0x05u8, 0x02, b'l', b'a'];
    assert_eq!(handle_meta(&mut off, &lyric, 11, &mut events, &mut texts), Ok(false));
    assert_eq!(off, 4);
    assert_eq!(texts, vec![TextRef { tick: 11, text_type: 5, start: 2, len: 2 }]);
    assert_eq!(events.len(), 2);
    let track = [0x00u8, 0xC1, 0x05, 0x10, 0xB1, 0x07, 0x64, 0x00, 0xFF, 0x2F, 0x00];
    let mut track_texts = Vec::new();
    let evs = parse_track(&track, &mut track_texts).unwrap();
    assert!(track_texts.is_empty());
    assert_eq!(evs.len(), 2);
    assert_eq!(evs[1], RawEvent { tick: 16, event_type: RawEventType::ControlChange { channel: 1, controller: 7, value: 100 } });
}

#[test]
fn bank_and_program_follow_the_notes() {
    let track = vec![
        0x00, 0xB2, 0x00, 0x64, // CC#0 = 100 on ch 2
        0x00, 0xC2, 0x05, // program 5
        0x00, 0x92, 0x40, 0x50, // note on
        0x30, 0x82, 0x40, 0x00, // note off after 48 ticks
        0x00, 0xFF, 0x2F, 0x00,
    ];
    let m = parse(&make_midi(0, 96, &[track])).unwrap();
    assert_eq!(m.notes.len(), 1);
    assert_eq!(m.notes[0].bank, 100);
    assert_eq!(m.notes[0].program, 5);
    assert_eq!(m.notes[0].duration_tick, 48);
    assert_eq!(m.control_events.len(), 2);
    // 48 ticks at 500000 us per quarter: 48 * 500000 units
    assert_eq!(m.notes[0].duration_units, 24_000_000);
    // end 0.25 s + 1.5 s, in units of 1/96e6 s
    assert_eq!(m.duration_units, 24_000_000 + 96 * 1_500_000);
}

#[test]
fn an_open_note_lasts_a_sixteenth() {
    let track = vec![0x00, 0x90, 0x3C, 0x64, 0x00, 0xFF, 0x2F, 0x00];
    let m = parse(&make_midi(0, 96, &[track])).unwrap();
    assert_eq!(m.notes.len(), 1);
    assert_eq!(m.notes[0].duration_tick, 24);
    assert!((note_duration(&m, &m.notes[0]) - 0.125).abs() < 1e-9);
}

#[test]
fn notes_come_out_sorted_and_the_song_covers_them() {
    let data = format0_with_drums();
    let m = parse(&data).unwrap();
    for w in m.notes.windows(2) {
        assert!(w[0].tick <= w[1].tick);
    }
    for n in &m.notes {
        assert!(n.time_units + n.duration_units + (m.ticks_per_quarter as u128) * 1_500_000 <= m.duration_units);
    }
    assert_eq!(m.tempo_map[0].0, 0);
}

#[test]
fn text_events_are_extracted_and_decoded() {
    // track 0: track name (UTF-8) at tick 0, marker at tick 96
    let conductor = vec![
        0x00, 0xFF, 0x03, 0x04, b'S', b'o', b'n', b'g',
        0x60, 0xFF, 0x06, 0x03, b'A', b'-', b'1',
        0x00, 0xFF, 0x2F, 0x00,
    ];
    // track 1: a lyric in Shift_JIS ("さ" = 0x82 0xB3) at tick 48, a note, a
    // sequencer-specific meta event (not a text)
    let melody = vec![
        0x00, 0x90, 0x3C, 0x64,
        0x30, 0xFF, 0x05, 0x02, 0x82, 0xB3,
        0x00, 0xFF, 0x7F, 0x01, 0x00,
        0x30, 0x80, 0x3C, 0x00,
        0x00, 0xFF, 0x2F, 0x00,
    ];
    let m = parse(&make_midi(1, 96, &[conductor, melody])).unwrap();
    assert_eq!(m.texts.len(), 3);
    // sorted by tick across the tracks
    assert_eq!((m.texts[0].tick, m.texts[0].text_type, m.texts[0].text.as_str()), (0, 3, "Song"));
    assert_eq!((m.texts[1].tick, m.texts[1].text_type, m.texts[1].text.as_str()), (48, 5, "さ"));
    assert_eq!((m.texts[2].tick, m.texts[2].text_type, m.texts[2].text.as_str()), (96, 6, "A-1"));
    // times at the default tempo: 48 ticks = 0.25 s, 96 ticks = 0.5 s
    assert_eq!(m.texts[1].time_units, 48 * 500_000);
    assert!((m.texts[2].time_units as f64 / m.units_per_sec() as f64 - 0.5).abs() < 1e-12);
    assert_eq!(m.notes.len(), 1);
}

#[test]
fn a_text_past_the_track_end_is_an_error() {
    let track = vec![0x00, 0xFF, 0x01, 0x05, b'a', b'b'];
    assert_eq!(
        parse(&make_midi(0, 96, &[track])).err().map(|e| e.message()),
        Some("Meta event data exceeds track size")
    );
}

#[test]
fn cut_events_give_their_errors() {
    let cut = |track: Vec<u8>| parse(&make_midi(0, 96, &[track])).err();
    assert_eq!(cut(vec![0x00, 0x80, 0x3C]), Some(ParseError::UnexpectedEndNoteOff));
    assert_eq!(cut(vec![0x00, 0xE0, 0x00]), Some(ParseError::UnexpectedEndTwoByteEvent));
    assert_eq!(cut(vec![0x00, 0xB0, 0x07]), Some(ParseError::UnexpectedEndControlChange));
    assert_eq!(cut(vec![0x00, 0xC0]), Some(ParseError::UnexpectedEndProgramChange));
    assert_eq!(cut(vec![0x00, 0xD0]), Some(ParseError::UnexpectedEndOneByteEvent));
    assert_eq!(cut(vec![0x00, 0xFF]), Some(ParseError::UnexpectedEndMetaType));
    assert_eq!(cut(vec![0x00, 0xFF, 0x01, 0x81]), Some(ParseError::UnexpectedEndVlq));
    assert_eq!(ParseError::UnexpectedEndMetaType.message(), "Unexpected end in meta event type");
}

#[test]
fn time_signatures_are_extracted() {
    let track = vec![
        0x00, 0xFF, 0x58, 0x04, 0x04, 0x02, 0x18, 0x08, // 4/4 at 0
        0x00, 0x90, 0x3C, 0x64,
        0x60, 0x80, 0x3C, 0x00,
        0x81, 0x40, 0xFF, 0x58, 0x04, 0x06, 0x03, 0x0C, 0x08, // 6/8 at tick 288
        0x00, 0xFF, 0x58, 0x03, 0x02, 0x02, 0x18, // wrong length: not a time signature
        0x00, 0xFF, 0x2F, 0x00,
    ];
    let m = parse(&make_midi(0, 96, &[track])).unwrap();
    assert_eq!(m.time_signatures.len(), 2);
    let t = &m.time_signatures;
    assert_eq!((t[0].tick, t[0].numerator, t[0].denominator_pow, t[0].clocks_per_click, t[0].notated_32nds), (0, 4, 2, 24, 8));
    assert_eq!((t[1].tick, t[1].numerator, t[1].denominator_pow, t[1].clocks_per_click), (288, 6, 3, 12));
    // 288 ticks at 120 BPM: 1.5 s
    assert_eq!(t[1].time_units, 288 * 500_000);
    assert_eq!(m.notes.len(), 1);
}

#[test]
fn read_positions_after_errors() {
    // a VLQ cut by the end of the data: the position is the end
    let v = [0x81u8, 0x82];
    let mut off = 0usize;
    assert_eq!(read_vlq(&v, &mut off), Err(ParseError::UnexpectedEndVlq));
    assert_eq!(off, 2);
    // a VLQ of more than four bytes: the position is four bytes on
    let v = [0x00u8, 0x81, 0x82, 0x83, 0x84, 0x05];
    let mut off = 1usize;
    assert_eq!(read_vlq(&v, &mut off), Err(ParseError::VlqTooLarge));
    assert_eq!(off, 5);
    // a cut channel event leaves the position where it was
    let mut events = Vec::new();
    let d = [0x3Cu8];
    let mut off = 0usize;
    assert_eq!(handle_channel_event(&mut off, &d, 0, 0x90, &mut events), Err(ParseError::UnexpectedEndNoteOn));
    assert_eq!(off, 0);
    assert!(events.is_empty());
}
