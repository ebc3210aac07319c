use sakuramml_player::midi_parser::TimeSec;
use sakuramml_player::player::{ChunkEvent, Player};
use sakuramml_player::synth::{Synth, SynthCommand};

const SR: u32 = 44100;
const CHUNK: usize = 44100 * 10;

fn make_midi(format: u16, tpq: u16, tracks: &[Vec<u8>]) -> Vec<u8> {
    let mut d = Vec::new();
    d.extend_from_slice(b"MThd");
    d.extend_from_slice(&6u32.to_be_bytes());
    d.extend_from_slice(&format.to_be_bytes());
    d.extend_from_slice(&(tracks.len() as u16).to_be_bytes());
    d.extend_from_slice(&tpq.to_be_bytes());
    for t in tracks {
        d.extend_from_slice(b"MTrk");
        d.extend_from_slice(&(t.len() as u32).to_be_bytes());
        d.extend_from_slice(t);
    }
    d
}

fn midi_one_note() -> Vec<u8> {
    let track = vec![
        0x00, 0xFF, 0x51, 0x03, 0x07, 0xA1, 0x20,
        0x00, 0x90, 0x3C, 0x64,
        0x60, 0x80, 0x3C, 0x00,
        0x00, 0xFF, 0x2F, 0x00,
    ];
    make_midi(0, 96, &[track])
}

fn midi_with_drums() -> Vec<u8> {
    let track = vec![
        0x00, 0xFF, 0x51, 0x03, 0x07, 0xA1, 0x20,
        0x00, 0x99, 0x24, 0x7F,
        0x18, 0x89, 0x24, 0x00,
        0x18, 0x99, 0x26, 0x64,
        0x18, 0x89, 0x26, 0x00,
        0x00, 0xFF, 0x2F, 0x00,
    ];
    make_midi(0, 96, &[track])
}

fn secs(t: TimeSec) -> f64 {
    t.num as f64 / t.den as f64
}

#[test]
fn test_empty_player_render_returns_empty() {
    let mut p = Player::new(SR);
    let buf = p.render_next(CHUNK);
    assert!(buf.is_empty(), "no song: an empty chunk");
}

#[test]
fn test_is_render_done_before_load() {
    let p = Player::new(SR);
    assert!(p.is_render_done());
}

#[test]
fn test_load_returns_valid_json() {
    let mut p = Player::new(SR);
    let json = p.load(&midi_one_note()).expect("load");
    assert!(json.starts_with('['), "JSON starts with '['");
    assert!(json.ends_with(']'), "JSON ends with ']'");
    assert_eq!(json.matches("\"note\"").count(), 1);
}

#[test]
fn test_get_duration_after_load() {
    let mut p = Player::new(SR);
    p.load(&midi_one_note()).expect("load");
    let dur = secs(p.get_duration());
    assert!(dur > 1.5, "the song lasts more than 1.5 s (actual={})", dur);
}

#[test]
fn test_total_samples_consistent_with_duration() {
    let mut p = Player::new(SR);
    p.load(&midi_one_note()).expect("load");
    let expected = (secs(p.get_duration()) * SR as f64).ceil() as usize + 1;
    assert!((p.get_total_samples() as isize - expected as isize).abs() <= 1);
}

#[test]
fn test_render_next_returns_correct_length() {
    let mut p = Player::new(SR);
    p.load(&midi_one_note()).expect("load");
    let total = p.get_total_samples();
    let chunk = p.render_next(CHUNK);
    let expected_len = CHUNK.min(total);
    assert_eq!(chunk.len(), expected_len);
}

#[test]
fn test_render_chunks_sum_equals_total_samples() {
    let mut p = Player::new(SR);
    p.load(&midi_one_note()).expect("load");
    let total = p.get_total_samples();

    let mut rendered = 0usize;
    while !p.is_render_done() {
        let chunk = p.render_next(CHUNK);
        assert!(!chunk.is_empty(), "no empty chunk before the end");
        rendered += chunk.len();
    }
    assert_eq!(rendered, total, "rendered={}, total={}", rendered, total);
}

#[test]
fn test_render_returns_empty_after_done() {
    let mut p = Player::new(SR);
    p.load(&midi_one_note()).expect("load");
    while !p.is_render_done() {
        p.render_next(CHUNK);
    }
    assert!(p.render_next(CHUNK).is_empty(), "empty once done");
}

#[test]
fn test_is_render_done_after_full_render() {
    let mut p = Player::new(SR);
    p.load(&midi_one_note()).expect("load");
    while !p.is_render_done() {
        p.render_next(CHUNK);
    }
    assert!(p.is_render_done());
}

#[test]
fn test_seek_to_zero_restarts_render() {
    let mut p = Player::new(SR);
    p.load(&midi_one_note()).expect("load");
    let total = p.get_total_samples();

    while !p.is_render_done() {
        p.render_next(CHUNK);
    }
    assert!(p.is_render_done());

    p.seek_to(TimeSec { num: 0, den: 1 });
    assert!(!p.is_render_done(), "not done after seek_to(0)");
    assert_eq!(p.get_render_pos(), 0);

    let mut rendered = 0;
    while !p.is_render_done() {
        rendered += p.render_next(CHUNK).len();
    }
    assert_eq!(rendered, total);
}

#[test]
fn test_seek_to_middle_reduces_remaining() {
    let mut p = Player::new(SR);
    p.load(&midi_one_note()).expect("load");
    let total = p.get_total_samples();

    let d = p.get_duration();
    let seek = TimeSec { num: d.num, den: d.den * 2 };
    let seek_s = secs(d) / 2.0;
    p.seek_to(seek);

    let mid_sample = (seek_s * SR as f64) as usize;
    assert!(
        (p.get_render_pos() as isize - mid_sample as isize).abs() <= 1,
        "pos={}, expected~={}",
        p.get_render_pos(),
        mid_sample
    );
    assert!(p.get_render_pos() < total);
}

#[test]
fn test_seek_beyond_duration_marks_done() {
    let mut p = Player::new(SR);
    p.load(&midi_one_note()).expect("load");
    let total = p.get_total_samples();

    p.seek_to(TimeSec { num: 9999, den: 1 });
    assert_eq!(p.get_render_pos(), total, "clamped to the end");
    assert!(p.is_render_done());
}

#[test]
fn test_render_with_drums_no_panic() {
    let mut p = Player::new(SR);
    p.load(&midi_with_drums()).expect("load");
    while !p.is_render_done() {
        p.render_next(CHUNK);
    }
}

// ── further cases ───────────────────────────────────

#[test]
fn one_note_schedule_is_exact() {
    let mut p = Player::new(SR);
    p.load(&midi_one_note()).expect("load");
    // 0.5 s note + 1.5 s: 2 s, 88200 samples, plus one
    assert_eq!(p.get_total_samples(), 88201);
    let plan = p.render_next(CHUNK);
    assert_eq!(plan.len(), 88201);
    // blocks of 128 frames, the last one shorter
    assert_eq!(plan.blocks.len(), (88201 + 127) / 128);
    assert!(plan.blocks.iter().all(|b| b.frames <= 128 && b.frames > 0));
    assert_eq!(plan.blocks.iter().map(|b| b.frames).sum::<usize>(), 88201);
    // the note on fires before the first block, the note off at sample 22050
    assert_eq!(
        plan.blocks[0].events,
        vec![ChunkEvent { sample: 0, ch: 0, note: 60, vel: 100, is_on: true, bank: 0, program: 0 }]
    );
    let off_block = 22050 / 128;
    assert_eq!(
        plan.blocks[off_block].events,
        vec![ChunkEvent { sample: 22050, ch: 0, note: 60, vel: 0, is_on: false, bank: 0, program: 0 }]
    );
    let fired: usize = plan.blocks.iter().map(|b| b.events.len()).sum();
    assert_eq!(fired, 2);
}

#[test]
fn seek_reports_the_sounding_notes() {
    let mut p = Player::new(SR);
    p.load(&midi_one_note()).expect("load");
    let active = p.seek_to(TimeSec { num: 1, den: 4 });
    assert_eq!(p.get_render_pos(), 11025);
    assert_eq!(active.len(), 1);
    assert_eq!(active[0].note, 60);
    assert_eq!(active[0].vel, 100);
    let silent = p.seek_to(TimeSec { num: 1, den: 1 });
    assert!(silent.is_empty());
    // the events before the cursor are not fired again
    let plan = p.render_next(128);
    assert!(plan.blocks[0].events.is_empty());
}

#[test]
fn drum_schedule_fires_channel_nine() {
    let mut p = Player::new(SR);
    p.load(&midi_with_drums()).expect("load");
    let plan = p.render_next(CHUNK);
    let ons: Vec<ChunkEvent> = plan
        .blocks
        .iter()
        .flat_map(|b| b.events.iter().copied())
        .filter(|e| e.is_on)
        .collect();
    assert_eq!(ons.len(), 2);
    assert!(ons.iter().all(|e| e.ch == 9));
}

#[test]
fn json_of_one_note() {
    let mut p = Player::new(SR);
    let json = p.load(&midi_one_note()).expect("load");
    assert_eq!(json, r#"[{"tick":0,"time":0.0000,"ch":0,"note":60,"vel":100,"dur":0.5000}]"#);
    assert_eq!(p.get_note_events_json(), json);
    let empty = Player::new(SR);
    assert_eq!(empty.get_note_events_json(), "[]");
}

#[test]
fn load_error_keeps_the_player() {
    let mut p = Player::new(SR);
    p.load(&midi_one_note()).expect("load");
    let total = p.get_total_samples();
    let err = p.load(b"MThd").unwrap_err();
    assert_eq!(err, "File too short to be a MIDI file");
    assert_eq!(p.get_total_samples(), total);
}

#[test]
fn chunked_render_fires_every_event_once() {
    let mut whole = Player::new(SR);
    whole.load(&midi_with_drums()).expect("load");
    let one_shot: Vec<ChunkEvent> = whole
        .render_next(CHUNK)
        .blocks
        .iter()
        .flat_map(|b| b.events.iter().copied())
        .collect();
    assert_eq!(one_shot.len(), 4);

    let mut p = Player::new(SR);
    p.load(&midi_with_drums()).expect("load");
    let mut fired: Vec<ChunkEvent> = Vec::new();
    let mut frames = 0usize;
    while !p.is_render_done() {
        let start = p.get_render_pos();
        let plan = p.render_next(1000);
        frames += plan.len();
        for b in &plan.blocks {
            for e in &b.events {
                // each render fires the events of the samples it renders
                assert!(start <= e.sample && e.sample < start + plan.len());
            }
            fired.extend(b.events.iter().copied());
        }
    }
    assert_eq!(frames, p.get_total_samples());
    assert_eq!(fired, one_shot);
}

#[test]
fn two_chunks_fire_what_one_chunk_fires() {
    let fired = |plans: &[sakuramml_player::player::RenderPlan]| -> Vec<ChunkEvent> {
        plans.iter().flat_map(|p| p.blocks.iter().flat_map(|b| b.events.iter().copied())).collect()
    };
    let mut a = Player::new(SR);
    a.load(&midi_with_drums()).expect("load");
    a.seek_to(TimeSec { num: 1, den: 10 });
    let first = a.render_next(3000);
    let second = a.render_next(9000);
    let mut b = Player::new(SR);
    b.load(&midi_with_drums()).expect("load");
    b.seek_to(TimeSec { num: 1, den: 10 });
    let whole = b.render_next(12000);
    assert_eq!(first.len() + second.len(), whole.len());
    assert_eq!(fired(&[first, second]), fired(&[whole]));
    assert_eq!(a.get_render_pos(), b.get_render_pos());
}

#[test]
fn json_holds_time_signatures_and_texts() {
    let track = vec![
        0x00, 0xFF, 0x58, 0x04, 0x03, 0x02, 0x18, 0x08, // 3/4
        0x00, 0x90, 0x3C, 0x64,
        0x30, 0xFF, 0x05, 0x05, b'a', b'"', b'b', b'\\', 0x0A, // lyric at tick 48
        0x30, 0x80, 0x3C, 0x00,
        0x00, 0xFF, 0x2F, 0x00,
    ];
    let mut p = Player::new(SR);
    let json = p.load(&make_midi(0, 96, &[track])).expect("load");
    let expected = String::from(r#"[{"tick":0,"time":0.0000,"ch":0,"note":60,"vel":100,"dur":0.5000},"#)
        + r#"{"type":"timesig","tick":0,"time":0.0000,"num":3,"den_pow":2},"#
        + r#"{"type":"text","tick":48,"time":0.2500,"kind":"Lyric","text":"a\"b\\\u000a"}]"#;
    assert_eq!(json, expected);
    assert_eq!(p.get_note_events_json(), json);
    assert_eq!(json.matches("\"note\"").count(), 1);
}

#[test]
fn drums_are_heard_without_a_soundfont() {
    let mut p = Player::new(SR);
    p.load(&midi_with_drums()).expect("load");
    let plan = p.render_next(CHUNK);
    let mut router = Synth::new(false);
    let mut on = 0;
    for b in &plan.blocks {
        for e in &b.events {
            let cmds = if e.is_on {
                router.note_on(e.ch, e.note, e.vel, e.bank, e.program)
            } else {
                router.note_off(e.ch, e.note)
            };
            for c in cmds {
                match c {
                    SynthCommand::PsgNoteOn { channel: 9, .. } => on += 1,
                    SynthCommand::PsgNoteOff { channel: 9, .. } => {}
                    other => panic!("unexpected command {:?}", other),
                }
            }
        }
    }
    assert_eq!(on, 2);
}

#[test]
fn a_seek_finds_the_control_values_in_effect() {
    let track = vec![
        0x00, 0xC0, 0x05, // program 5
        0x00, 0xB0, 0x07, 0x64, // volume 100
        0x00, 0x90, 0x3C, 0x64,
        0x30, 0xE0, 0x00, 0x50, // pitch bend at tick 48
        0x30, 0xB0, 0x07, 0x32, // volume 50 at tick 96
        0x00, 0x80, 0x3C, 0x00,
        0x00, 0xFF, 0x2F, 0x00,
    ];
    let mut p = Player::new(SR);
    p.load(&make_midi(0, 96, &[track])).expect("load");
    // at 0.3 s (tick 57.6): program 5, volume 100, the pitch bend
    p.seek_to(TimeSec { num: 3, den: 10 });
    let c: Vec<(u32, u8, u8, u8)> =
        p.effective_controls().iter().map(|e| (e.tick, e.command, e.data1, e.data2)).collect();
    assert_eq!(c, vec![(0, 0xC0, 5, 0), (0, 0xB0, 7, 100), (48, 0xE0, 0x00, 0x50)]);
    // at 0.6 s: the later volume replaces the first one
    p.seek_to(TimeSec { num: 6, den: 10 });
    let c: Vec<(u32, u8, u8, u8)> =
        p.effective_controls().iter().map(|e| (e.tick, e.command, e.data1, e.data2)).collect();
    assert_eq!(c, vec![(0, 0xC0, 5, 0), (48, 0xE0, 0x00, 0x50), (96, 0xB0, 7, 50)]);
    // before anything: none
    let fresh = Player::new(SR);
    assert!(fresh.effective_controls().is_empty());
    // the synthesizer sets again volume and pitch bend; program travels with notes
    let router = Synth::new(true);
    assert_eq!(router.control(0, 0xB0, 7, 50), vec![SynthCommand::Sf2Message { channel: 0, command: 0xB0, data1: 7, data2: 50 }]);
    assert_eq!(router.control(0, 0xC0, 5, 0), vec![]);
    assert_eq!(router.control(0, 0xB0, 0, 3), vec![]);
    assert_eq!(Synth::new(false).control(0, 0xE0, 0, 0x40), vec![]);
}
