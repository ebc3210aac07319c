# sakuramml_player

A MIDI / MML player whose core is verified with Verus.

## Layout

- `src/` — the verified library
  - `midi_parser.rs`: Standard MIDI File parser (formats 0 and 1). Times are exact
    rationals ("time units", `ticks_per_quarter * 1_000_000` per second). Notes are
    paired first in, first out; time signatures are kept, and text meta events
    (0x01–0x07) are decoded as UTF-8, or as Shift_JIS when the bytes are not valid
    UTF-8. `parse` is proved equal to
    the specification `spec_parse`.
  - `player.rs`: the playback schedule. `load`, `seek_to` and `render_next` keep
    the cursor, the sorted per-sample note events and the next event to fire in
    step; `render_next` returns, block of 128 frames by block, the events to fire
    before each block. After a seek, the sounding notes and the control values in
    effect are known. The song as JSON for the piano roll: notes, time
    signatures and texts.
  - `synth.rs`: routing of the hybrid synthesizer (bank 100 → PSG, else SoundFont;
    drums on channel 9 → PSG when there is no SoundFont); each operation returns
    the commands for the engines.
  - `soundfont.rs`: what loading a SoundFont into the process-wide slot gives for
    a parse result.
  - `psg.rs`: the General MIDI drum map and drum noise seeds, in integer units.
  - `sort.rs`: stable insertion sort by an integer key.
  - `utils.rs`: xorshift32 generator.
  - `cli.rs`: helpers of the command-line player.
  - `lib.rs`: text decoding (encoding_rs) and MML compile results.
- `tests/` — tests of the library.
- `app/` — the program around it: command-line playback (rodio) and WAV output
  (wav_io), the calls to the MML compiler (sakuramml) and the SoundFont parser
  (rustysynth), which can fail to return on some inputs, the slot holding the
  SoundFont, the SoundFont (rustysynth) and PSG
  engines that compute the audio in floating point, and the browser API
  (wasm-bindgen).
