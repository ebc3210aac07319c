//! The integer side of the PSG percussion voice: the General MIDI drum map and
//! the noise seed of a drum hit. The signal itself (square waves, envelopes,
//! mixing) is floating point and lives with the audio engine.

use vstd::prelude::*;

verus! {

/// The sound of a drum note, in integer units: decay in milliseconds, tone in
/// hertz, noise share and level in hundredths.
#[derive(Clone, Copy, Debug, PartialEq, Eq, Structural)]
pub struct DrumSound {
    pub decay_ms: u32,
    pub tone_hz: u32,
    pub noise_pct: u32,
    pub level_pct: u32,
}

/// The sound of each General MIDI percussion note.
pub open spec fn drum_sound(note: u8) -> DrumSound {
    if note == 35 || note == 36 {
        // bass drum
        DrumSound { decay_ms: 350, tone_hz: 55, noise_pct: 30, level_pct: 110 }
    } else if note == 38 || note == 40 {
        // snare
        DrumSound { decay_ms: 150, tone_hz: 200, noise_pct: 88, level_pct: 90 }
    } else if note == 37 || note == 39 {
        // side stick, hand clap
        DrumSound { decay_ms: 80, tone_hz: 500, noise_pct: 100, level_pct: 80 }
    } else if note == 42 {
        // closed hi-hat
        DrumSound { decay_ms: 40, tone_hz: 9000, noise_pct: 100, level_pct: 65 }
    } else if note == 44 {
        // pedal hi-hat
        DrumSound { decay_ms: 70, tone_hz: 8000, noise_pct: 100, level_pct: 60 }
    } else if note == 46 {
        // open hi-hat
        DrumSound { decay_ms: 420, tone_hz: 8500, noise_pct: 100, level_pct: 70 }
    } else if note == 41 || note == 43 || note == 45 || note == 47 || note == 48 || note == 50 {
        // toms
        DrumSound { decay_ms: 200, tone_hz: 110, noise_pct: 55, level_pct: 85 }
    } else if note == 49 || note == 57 {
        // crash cymbals
        DrumSound { decay_ms: 1000, tone_hz: 6000, noise_pct: 100, level_pct: 75 }
    } else if note == 51 || note == 59 {
        // ride cymbals
        DrumSound { decay_ms: 600, tone_hz: 7000, noise_pct: 100, level_pct: 70 }
    } else if note == 52 {
        // chinese cymbal
        DrumSound { decay_ms: 800, tone_hz: 5000, noise_pct: 100, level_pct: 70 }
    } else if note == 56 || (60 <= note && note <= 64) {
        // cowbell, bongos, congas
        DrumSound { decay_ms: 150, tone_hz: 600, noise_pct: 60, level_pct: 80 }
    } else {
        DrumSound { decay_ms: 120, tone_hz: 300, noise_pct: 80, level_pct: 70 }
    }
}

/// The sound of a General MIDI drum note.
pub fn drum_params(note: u8) -> (r: DrumSound)
    ensures
        r == drum_sound(note),
{
    match note {
        35 | 36 => DrumSound { decay_ms: 350, tone_hz: 55, noise_pct: 30, level_pct: 110 },
        38 | 40 => DrumSound { decay_ms: 150, tone_hz: 200, noise_pct: 88, level_pct: 90 },
        37 | 39 => DrumSound { decay_ms: 80, tone_hz: 500, noise_pct: 100, level_pct: 80 },
        42 => DrumSound { decay_ms: 40, tone_hz: 9000, noise_pct: 100, level_pct: 65 },
        44 => DrumSound { decay_ms: 70, tone_hz: 8000, noise_pct: 100, level_pct: 60 },
        46 => DrumSound { decay_ms: 420, tone_hz: 8500, noise_pct: 100, level_pct: 70 },
        41 | 43 | 45 | 47 | 48 | 50 => DrumSound { decay_ms: 200, tone_hz: 110, noise_pct: 55, level_pct: 85 },
        49 | 57 => DrumSound { decay_ms: 1000, tone_hz: 6000, noise_pct: 100, level_pct: 75 },
        51 | 59 => DrumSound { decay_ms: 600, tone_hz: 7000, noise_pct: 100, level_pct: 70 },
        52 => DrumSound { decay_ms: 800, tone_hz: 5000, noise_pct: 100, level_pct: 70 },
        56 | 60..=64 => DrumSound { decay_ms: 150, tone_hz: 600, noise_pct: 60, level_pct: 80 },
        _ => DrumSound { decay_ms: 120, tone_hz: 300, noise_pct: 80, level_pct: 70 },
    }
}

/// The noise seed of a drum hit, from its note and velocity:
/// `note * 1_000_003 + vel` (this never leaves the `u32` range).
pub fn drum_seed(note: u8, vel: u8) -> (r: u32)
    ensures
        r == note * 1_000_003 + vel,
{
    assert(note * 1_000_003 <= 255 * 1_000_003) by (nonlinear_arith) requires note <= 255;
    (note as u32) * 1_000_003 + (vel as u32)
}

/// Two hits with different notes or velocities get different noise.
pub proof fn lemma_drum_seed_distinct(n1: u8, v1: u8, n2: u8, v2: u8)
    requires
        n1 != n2 || v1 != v2,
    ensures
        n1 * 1_000_003 + v1 != n2 * 1_000_003 + v2,
{
    if n1 != n2 {
        if n1 < n2 {
            assert(n1 * 1_000_003 + 1_000_003 <= n2 * 1_000_003) by (nonlinear_arith) requires n1 < n2;
        } else {
            assert(n2 * 1_000_003 + 1_000_003 <= n1 * 1_000_003) by (nonlinear_arith) requires n2 < n1;
        }
    }
}

} // verus!
