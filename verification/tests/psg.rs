use sakuramml_player::psg::{drum_params, drum_seed, DrumSound};

#[test]
fn drum_map_of_general_midi_notes() {
    assert_eq!(drum_params(36), DrumSound { decay_ms: 350, tone_hz: 55, noise_pct: 30, level_pct: 110 });
    assert_eq!(drum_params(38), DrumSound { decay_ms: 150, tone_hz: 200, noise_pct: 88, level_pct: 90 });
    assert_eq!(drum_params(42), DrumSound { decay_ms: 40, tone_hz: 9000, noise_pct: 100, level_pct: 65 });
    assert_eq!(drum_params(46), DrumSound { decay_ms: 420, tone_hz: 8500, noise_pct: 100, level_pct: 70 });
    assert_eq!(drum_params(48), drum_params(41));
    assert_eq!(drum_params(57), DrumSound { decay_ms: 1000, tone_hz: 6000, noise_pct: 100, level_pct: 75 });
    assert_eq!(drum_params(62), drum_params(56));
    // anything else
    assert_eq!(drum_params(0), DrumSound { decay_ms: 120, tone_hz: 300, noise_pct: 80, level_pct: 70 });
    assert_eq!(drum_params(65), drum_params(127));
}

#[test]
fn drum_seed_from_note_and_velocity() {
    assert_eq!(drum_seed(36, 127), 36 * 1_000_003 + 127);
    assert_eq!(drum_seed(0, 0), 0);
    assert_eq!(drum_seed(255, 255), 255_000_765 + 255);
    assert_ne!(drum_seed(36, 100), drum_seed(36, 101));
}
