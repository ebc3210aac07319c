use sakuramml_player::synth::{Synth, SynthCommand};

#[test]
fn psg_bank_routes_to_psg_and_back() {
    let mut s = Synth::new(true);
    assert_eq!(s.note_on(1, 60, 100, 100, 0), vec![SynthCommand::PsgNoteOn { channel: 1, note: 60, velocity: 100 }]);
    assert_eq!(s.note_off(1, 60), vec![SynthCommand::PsgNoteOff { channel: 1, note: 60 }]);
    assert_eq!(s.note_off(1, 60), vec![]);
}

#[test]
fn soundfont_gets_bank_and_program_once() {
    let mut s = Synth::new(true);
    assert_eq!(
        s.note_on(2, 64, 90, 1, 5),
        vec![
            SynthCommand::Sf2Message { channel: 2, command: 0xB0, data1: 0, data2: 1 },
            SynthCommand::Sf2Message { channel: 2, command: 0xC0, data1: 5, data2: 0 },
            SynthCommand::Sf2NoteOn { channel: 2, note: 64, velocity: 90 },
        ]
    );
    assert_eq!(s.note_on(2, 67, 80, 1, 5), vec![SynthCommand::Sf2NoteOn { channel: 2, note: 67, velocity: 80 }]);
    assert_eq!(s.note_off(2, 64), vec![SynthCommand::Sf2NoteOff { channel: 2, note: 64 }]);
}

#[test]
fn without_soundfont_only_drums_play_on_psg() {
    let mut s = Synth::new(false);
    // a General MIDI drum (channel 9, bank 0) is heard through the PSG engine
    assert_eq!(s.note_on(9, 36, 127, 0, 0), vec![SynthCommand::PsgNoteOn { channel: 9, note: 36, velocity: 127 }]);
    assert_eq!(s.note_off(9, 36), vec![SynthCommand::PsgNoteOff { channel: 9, note: 36 }]);
    // a melodic note of bank 0 goes to the missing SoundFont engine: nothing sounds
    assert_eq!(s.note_on(0, 60, 100, 0, 3), vec![]);
    assert_eq!(s.note_off(0, 60), vec![]);
    // bank 100 still plays on PSG
    assert_eq!(s.note_on(1, 60, 100, 100, 0), vec![SynthCommand::PsgNoteOn { channel: 1, note: 60, velocity: 100 }]);
    assert_eq!(s.reset(), vec![SynthCommand::PsgReset]);
}

#[test]
fn reset_forgets_routes() {
    let mut s = Synth::new(true);
    s.note_on(9, 36, 127, 100, 0);
    assert_eq!(s.reset(), vec![SynthCommand::Sf2Reset, SynthCommand::PsgReset]);
    assert_eq!(s.note_off(9, 36), vec![]);
    // bank and program are sent again after a reset
    s.note_on(3, 60, 100, 2, 0);
    s.reset();
    assert_eq!(s.note_on(3, 60, 100, 2, 0).len(), 2);
}
