//! Playback state and streaming (chunked) rendering schedule.
//!
//! - `load()` parses a MIDI file, builds the list of note events per sample and
//!   puts the cursor at the start,
//! - `seek_to()` moves the cursor and tells which notes sound there, and
//!   `effective_controls()` which control values are in effect there,
//! - `render_next()` tells, block of 128 frames by block, which note events to
//!   fire before synthesizing the block,
//! - `is_render_done()` tells whether every sample has been scheduled.
//!
//! The audio itself is computed by the synthesizer engines that follow the schedule.

use vstd::prelude::*;
use vstd::string::StrSliceExecFns;
use crate::cli::{meta_text_name, meta_text_type_name};
use crate::midi_parser::{parse, spec_parse, MidiData, MidiControlEvent, NoteEvent, ParsedMidi, TimeSec, TimeSignature, MetaText,
    MetaTextView, parse_error_text, lemma_parse_notes_sorted_and_covered, lemma_parse_texts,
    lemma_parse_time_signatures, lemma_parse_controls_bounded, lemma_low_nibble, note_bounded};
use crate::sort::{SortKey, sort_stable, stable_sort, sorted_by_key, lemma_stable_sort_ensures};

verus! {

// ─────────────────────────────────────────────
// Decimal text
// ─────────────────────────────────────────────

/// The character of a decimal digit.
pub open spec fn digit_char(d: int) -> char {
    if d == 0 { '0' } else if d == 1 { '1' } else if d == 2 { '2' } else if d == 3 { '3' }
    else if d == 4 { '4' } else if d == 5 { '5' } else if d == 6 { '6' } else if d == 7 { '7' }
    else if d == 8 { '8' } else { '9' }
}

/// The decimal representation of `n` (no leading zeros).
pub open spec fn dec(n: nat) -> Seq<char>
    decreases n,
{
    if n < 10 {
        seq![digit_char(n as int)]
    } else {
        dec(n / 10).push(digit_char((n % 10) as int))
    }
}

/// `num / den` rounded to the nearest integer, ties to even.
pub open spec fn round_half_even(num: nat, den: nat) -> nat {
    let q = num / den;
    let r = num % den;
    if 2 * r > den {
        q + 1
    } else if 2 * r < den {
        q
    } else if q % 2 == 0 {
        q
    } else {
        q + 1
    }
}

/// `num / den` written with exactly four decimals (as `{:.4}` writes a number).
pub open spec fn fixed4(num: nat, den: nat) -> Seq<char> {
    let v = round_half_even(num * 10000, den);
    let f = (v % 10000) as int;
    dec(v / 10000) + seq!['.', digit_char(f / 1000), digit_char((f / 100) % 10), digit_char((f / 10) % 10), digit_char(f % 10)]
}

fn digit_str(d: u128) -> (r: &'static str)
    requires
        d < 10,
    ensures
        r@ == seq![digit_char(d as int)],
{
    proof {
        reveal_strlit("0");
        reveal_strlit("1");
        reveal_strlit("2");
        reveal_strlit("3");
        reveal_strlit("4");
        reveal_strlit("5");
        reveal_strlit("6");
        reveal_strlit("7");
        reveal_strlit("8");
        reveal_strlit("9");
    }
    match d {
        0 => "0",
        1 => "1",
        2 => "2",
        3 => "3",
        4 => "4",
        5 => "5",
        6 => "6",
        7 => "7",
        8 => "8",
        _ => "9",
    }
}

/// Appends the decimal representation of `n`.
fn push_dec(s: &mut String, n: u128)
    ensures
        final(s)@ == old(s)@ + dec(n as nat),
    decreases n,
{
    if n >= 10 {
        push_dec(s, n / 10);
        s.append(digit_str(n % 10));
        assert(old(s)@ + dec((n / 10) as nat) + seq![digit_char((n % 10) as int)] =~= old(s)@ + dec(n as nat));
    } else {
        s.append(digit_str(n));
        assert(dec(n as nat) =~= seq![digit_char(n as int)]);
    }
}

/// Appends `num / den` with four decimals.
fn push_fixed4(s: &mut String, num: u128, den: u64)
    requires
        den > 0,
        num < 0x1_0000_0000_0000_0000_0000u128,
    ensures
        final(s)@ == old(s)@ + fixed4(num as nat, den as nat),
{
    let scaled: u128 = num * 10000;
    let d = den as u128;
    let q = scaled / d;
    let r = scaled % d;
    let v: u128 = if 2 * r > d {
        q + 1
    } else if 2 * r < d {
        q
    } else if q % 2 == 0 {
        q
    } else {
        q + 1
    };
    assert(v == round_half_even((num * 10000) as nat, den as nat));
    let f = v % 10000;
    push_dec(s, v / 10000);
    s.append(".");
    s.append(digit_str(f / 1000));
    s.append(digit_str((f / 100) % 10));
    s.append(digit_str((f / 10) % 10));
    s.append(digit_str(f % 10));
    proof {
        reveal_strlit(".");
        assert(final(s)@ =~= old(s)@ + fixed4(num as nat, den as nat));
    }
}

// ─────────────────────────────────────────────
// The song as JSON (for the piano roll)
// ─────────────────────────────────────────────

/// One note as a JSON object; times in seconds with four decimals.
pub open spec fn note_json(n: NoteEvent, ups: nat) -> Seq<char> {
    "{\"tick\":"@ + dec(n.tick as nat) + ",\"time\":"@ + fixed4(n.time_units as nat, ups) + ",\"ch\":"@
        + dec(n.channel as nat) + ",\"note\":"@ + dec(n.note as nat) + ",\"vel\":"@ + dec(n.velocity as nat)
        + ",\"dur\":"@ + fixed4(n.duration_units as nat, ups) + "}"@
}

/// A hexadecimal digit (lower case).
pub open spec fn hex_char(d: int) -> char {
    if d < 10 { digit_char(d) } else if d == 10 { 'a' } else if d == 11 { 'b' } else if d == 12 { 'c' }
    else if d == 13 { 'd' } else if d == 14 { 'e' } else { 'f' }
}

/// A character as it stands inside a JSON string: quote and backslash escaped,
/// control characters (below U+0020) written `\u00XX`, others as they are.
pub open spec fn json_char(c: char) -> Seq<char> {
    if c == '"' {
        seq!['\\', '"']
    } else if c == '\\' {
        seq!['\\', '\\']
    } else if (c as u32) < 0x20 {
        seq!['\\', 'u', '0', '0', hex_char((c as u32) as int / 16), hex_char((c as u32) as int % 16)]
    } else {
        seq![c]
    }
}

/// A text as the inside of a JSON string.
pub open spec fn json_escape(t: Seq<char>) -> Seq<char>
    decreases t.len(),
{
    if t.len() == 0 {
        Seq::empty()
    } else {
        json_escape(t.drop_last()) + json_char(t.last())
    }
}

/// A time signature as a JSON object: bar and beat information for the piano roll.
pub open spec fn timesig_json(t: TimeSignature, ups: nat) -> Seq<char> {
    "{\"type\":\"timesig\",\"tick\":"@ + dec(t.tick as nat) + ",\"time\":"@ + fixed4(t.time_units as nat, ups)
        + ",\"num\":"@ + dec(t.numerator as nat) + ",\"den_pow\":"@ + dec(t.denominator_pow as nat) + "}"@
}

/// A text meta event as a JSON object: its kind by name and its text.
pub open spec fn text_json(t: MetaTextView, ups: nat) -> Seq<char> {
    "{\"type\":\"text\",\"tick\":"@ + dec(t.tick as nat) + ",\"time\":"@ + fixed4(t.time_units as nat, ups)
        + ",\"kind\":\""@ + meta_text_name(t.text_type) + "\",\"text\":\""@ + json_escape(t.text) + "\"}"@
}

/// JSON values separated by commas.
pub open spec fn json_join(items: Seq<Seq<char>>) -> Seq<char>
    decreases items.len(),
{
    if items.len() == 0 {
        Seq::empty()
    } else if items.len() == 1 {
        items[0]
    } else {
        json_join(items.drop_last()) + ","@ + items.last()
    }
}

/// The JSON values of a song: its notes, then its time signatures, then its texts.
pub open spec fn song_items(m: ParsedMidi, ups: nat) -> Seq<Seq<char>> {
    m.notes.map_values(|n: NoteEvent| note_json(n, ups)) + m.time_signatures.map_values(
        |t: TimeSignature| timesig_json(t, ups),
    ) + m.texts.map_values(|t: MetaTextView| text_json(t, ups))
}

/// The song as a JSON array (for the piano roll): note objects (with `"note"`),
/// then time-signature objects (`"type":"timesig"`), then text objects
/// (`"type":"text"`).
pub open spec fn song_json(m: ParsedMidi, ups: nat) -> Seq<char> {
    "["@ + json_join(song_items(m, ups)) + "]"@
}

proof fn lemma_json_join_step(items: Seq<Seq<char>>, c: int)
    requires
        0 <= c < items.len(),
    ensures
        json_join(items.take(c + 1)) == json_join(items.take(c)) + (if c == 0 { Seq::<char>::empty() } else { ","@ })
            + items[c],
{
    let t = items.take(c + 1);
    assert(t.drop_last() =~= items.take(c));
    if c == 0 {
        assert(json_join(items.take(0)) == Seq::<char>::empty());
        assert(Seq::<char>::empty() + Seq::<char>::empty() + items[0] =~= items[0]);
    }
}

fn hex_str(d: u32) -> (r: &'static str)
    requires
        d < 16,
    ensures
        r@ == seq![hex_char(d as int)],
{
    proof {
        reveal_strlit("0");
        reveal_strlit("1");
        reveal_strlit("2");
        reveal_strlit("3");
        reveal_strlit("4");
        reveal_strlit("5");
        reveal_strlit("6");
        reveal_strlit("7");
        reveal_strlit("8");
        reveal_strlit("9");
        reveal_strlit("a");
        reveal_strlit("b");
        reveal_strlit("c");
        reveal_strlit("d");
        reveal_strlit("e");
        reveal_strlit("f");
    }
    match d {
        0 => "0",
        1 => "1",
        2 => "2",
        3 => "3",
        4 => "4",
        5 => "5",
        6 => "6",
        7 => "7",
        8 => "8",
        9 => "9",
        10 => "a",
        11 => "b",
        12 => "c",
        13 => "d",
        14 => "e",
        _ => "f",
    }
}

/// Appends a text, escaped for the inside of a JSON string.
fn push_json_text(s: &mut String, text: &str)
    ensures
        final(s)@ == old(s)@ + json_escape(text@),
{
    let n = text.unicode_len();
    let ghost s0 = s@;
    let mut i: usize = 0;
    assert(text@.take(0) =~= Seq::<char>::empty());
    assert(s@ =~= s0 + json_escape(text@.take(0)));
    while i < n
        invariant
            n == text@.len(),
            i <= n,
            s@ == s0 + json_escape(text@.take(i as int)),
        decreases n - i,
    {
        let c = text.get_char(i);
        let ghost before = s@;
        if c == '"' {
            s.append("\\\"");
            proof {
                reveal_strlit("\\\"");
            }
        } else if c == '\\' {
            s.append("\\\\");
            proof {
                reveal_strlit("\\\\");
            }
        } else if (c as u32) < 0x20 {
            let code = c as u32;
            s.append("\\u00");
            s.append(hex_str(code / 16));
            s.append(hex_str(code % 16));
            proof {
                reveal_strlit("\\u00");
            }
        } else {
            s.append(text.substring_char(i, i + 1));
        }
        proof {
            let t = text@.take(i + 1);
            assert(t.drop_last() =~= text@.take(i as int));
            assert(t.last() == c);
            assert(s@ =~= before + json_char(c));
            assert(s@ =~= s0 + json_escape(t));
        }
        i = i + 1;
    }
    assert(text@.take(n as int) =~= text@);
}

fn push_note_json(s: &mut String, n: &NoteEvent, ups: u64)
    requires
        ups > 0,
        note_bounded(*n),
    ensures
        final(s)@ == old(s)@ + note_json(*n, ups as nat),
{
    let ghost s0 = s@;
    let ghost u = ups as nat;
    s.append("{\"tick\":");
    push_dec(s, n.tick as u128);
    s.append(",\"time\":");
    let ghost s1 = s@;
    assert(s1 =~= s0 + ("{\"tick\":"@ + dec(n.tick as nat) + ",\"time\":"@));
    push_fixed4(s, n.time_units, ups);
    s.append(",\"ch\":");
    push_dec(s, n.channel as u128);
    let ghost s2 = s@;
    assert(s2 =~= s1 + (fixed4(n.time_units as nat, u) + ",\"ch\":"@ + dec(n.channel as nat)));
    s.append(",\"note\":");
    push_dec(s, n.note as u128);
    s.append(",\"vel\":");
    push_dec(s, n.velocity as u128);
    let ghost s3 = s@;
    assert(s3 =~= s2 + (",\"note\":"@ + dec(n.note as nat) + ",\"vel\":"@ + dec(n.velocity as nat)));
    s.append(",\"dur\":");
    push_fixed4(s, n.duration_units, ups);
    s.append("}");
    let ghost s4 = s@;
    assert(s4 =~= s3 + (",\"dur\":"@ + fixed4(n.duration_units as nat, u) + "}"@));
    assert(s4 =~= s0 + note_json(*n, u));
}


fn push_timesig_json(s: &mut String, t: &TimeSignature, ups: u64)
    requires
        ups > 0,
        t.time_units < 0x1_0000_0000_0000_0000u128,
    ensures
        final(s)@ == old(s)@ + timesig_json(*t, ups as nat),
{
    let ghost s0 = s@;
    let ghost u = ups as nat;
    s.append("{\"type\":\"timesig\",\"tick\":");
    push_dec(s, t.tick as u128);
    s.append(",\"time\":");
    let ghost s1 = s@;
    assert(s1 =~= s0 + ("{\"type\":\"timesig\",\"tick\":"@ + dec(t.tick as nat) + ",\"time\":"@));
    push_fixed4(s, t.time_units, ups);
    s.append(",\"num\":");
    push_dec(s, t.numerator as u128);
    s.append(",\"den_pow\":");
    push_dec(s, t.denominator_pow as u128);
    s.append("}");
    assert(s@ =~= s1 + (fixed4(t.time_units as nat, u) + ",\"num\":"@ + dec(t.numerator as nat) + ",\"den_pow\":"@
        + dec(t.denominator_pow as nat) + "}"@));
    assert(s@ =~= s0 + timesig_json(*t, u));
}

fn push_text_json(s: &mut String, t: &MetaText, ups: u64)
    requires
        ups > 0,
        t.time_units < 0x1_0000_0000_0000_0000u128,
    ensures
        final(s)@ == old(s)@ + text_json(t@, ups as nat),
{
    let ghost s0 = s@;
    let ghost u = ups as nat;
    s.append("{\"type\":\"text\",\"tick\":");
    push_dec(s, t.tick as u128);
    s.append(",\"time\":");
    let ghost s1 = s@;
    assert(s1 =~= s0 + ("{\"type\":\"text\",\"tick\":"@ + dec(t.tick as nat) + ",\"time\":"@));
    push_fixed4(s, t.time_units, ups);
    s.append(",\"kind\":\"");
    s.append(meta_text_type_name(t.text_type));
    s.append("\",\"text\":\"");
    let ghost s2 = s@;
    assert(s2 =~= s1 + (fixed4(t.time_units as nat, u) + ",\"kind\":\""@ + meta_text_name(t.text_type)
        + "\",\"text\":\""@));
    push_json_text(s, t.text.as_str());
    s.append("\"}");
    assert(s@ =~= s2 + (json_escape(t.text@) + "\"}"@));
    assert(s@ =~= s0 + text_json(t@, u));
}

/// The song as a JSON array: notes, then time signatures, then texts (see
/// `song_json`).
pub fn song_to_json(m: &MidiData) -> (r: String)
    requires
        m.ticks_per_quarter > 0,
        forall|k: int| 0 <= k < m.notes@.len() ==> note_bounded(#[trigger] m.notes@[k]),
        forall|k: int| 0 <= k < m.time_signatures@.len() ==> #[trigger] m.time_signatures@[k].time_units
            < 0x1_0000_0000_0000_0000u128,
        forall|k: int| 0 <= k < m.texts@.len() ==> #[trigger] m.texts@[k].time_units < 0x1_0000_0000_0000_0000u128,
    ensures
        r@ == song_json(m@, (m.ticks_per_quarter * 1_000_000) as nat),
{
    let ups = m.units_per_sec();
    let ghost u = ups as nat;
    let ghost items = song_items(m@, u);
    let ghost nn = m.notes@.len() as int;
    let ghost nt = m.time_signatures@.len() as int;
    let ghost nx = m.texts@.len() as int;
    assert(items.len() == nn + nt + nx);
    let mut s = String::from_str("[");
    let mut first = true;
    let ghost mut c: int = 0;
    assert(items.take(0) =~= Seq::<Seq<char>>::empty());
    let mut i: usize = 0;
    while i < m.notes.len()
        invariant
            i <= m.notes@.len(),
            ups > 0,
            u == ups as nat,
            items == song_items(m@, u),
            items.len() == nn + nt + nx,
            nn == m.notes@.len(),
            c == i,
            first <==> c == 0,
            forall|k: int| 0 <= k < m.notes@.len() ==> note_bounded(#[trigger] m.notes@[k]),
            s@ == "["@ + json_join(items.take(c)),
        decreases m.notes@.len() - i,
    {
        proof {
            lemma_json_join_step(items, c);
            assert(items[c] == note_json(m.notes@[i as int], u));
            assert(note_bounded(m.notes@[i as int]));
        }
        let ghost before = s@;
        if !first {
            s.append(",");
        }
        push_note_json(&mut s, &m.notes[i], ups);
        proof {
            assert(s@ =~= "["@ + json_join(items.take(c + 1)));
            c = c + 1;
        }
        first = false;
        i = i + 1;
    }
    let mut j: usize = 0;
    while j < m.time_signatures.len()
        invariant
            j <= m.time_signatures@.len(),
            ups > 0,
            u == ups as nat,
            items == song_items(m@, u),
            items.len() == nn + nt + nx,
            nn == m.notes@.len(),
            nt == m.time_signatures@.len(),
            c == nn + j,
            first <==> c == 0,
            forall|k: int| 0 <= k < m.time_signatures@.len() ==> #[trigger] m.time_signatures@[k].time_units
                < 0x1_0000_0000_0000_0000u128,
            s@ == "["@ + json_join(items.take(c)),
        decreases m.time_signatures@.len() - j,
    {
        proof {
            lemma_json_join_step(items, c);
            assert(items[c] == timesig_json(m.time_signatures@[j as int], u));
        }
        if !first {
            s.append(",");
        }
        push_timesig_json(&mut s, &m.time_signatures[j], ups);
        proof {
            assert(s@ =~= "["@ + json_join(items.take(c + 1)));
            c = c + 1;
        }
        first = false;
        j = j + 1;
    }
    let mut k: usize = 0;
    while k < m.texts.len()
        invariant
            k <= m.texts@.len(),
            ups > 0,
            u == ups as nat,
            items == song_items(m@, u),
            items.len() == nn + nt + nx,
            nn == m.notes@.len(),
            nt == m.time_signatures@.len(),
            nx == m.texts@.len(),
            c == nn + nt + k,
            first <==> c == 0,
            forall|q: int| 0 <= q < m.texts@.len() ==> #[trigger] m.texts@[q].time_units < 0x1_0000_0000_0000_0000u128,
            s@ == "["@ + json_join(items.take(c)),
        decreases m.texts@.len() - k,
    {
        proof {
            lemma_json_join_step(items, c);
            assert(items[c] == text_json(m.texts@[k as int]@, u));
        }
        if !first {
            s.append(",");
        }
        push_text_json(&mut s, &m.texts[k], ups);
        proof {
            assert(s@ =~= "["@ + json_join(items.take(c + 1)));
            c = c + 1;
        }
        first = false;
        k = k + 1;
    }
    s.append("]");
    assert(items.take(c) =~= items);
    assert(s@ =~= song_json(m@, u));
    s
}

// ─────────────────────────────────────────────
// Events per sample
// ─────────────────────────────────────────────

/// A note event at a sample position (Copy, so that firing it borrows nothing).
#[derive(Clone, Copy, Debug, PartialEq, Eq, Structural)]
pub struct ChunkEvent {
    pub sample: usize,
    pub ch: u8,
    pub note: u8,
    pub vel: u8,
    pub is_on: bool,
    pub bank: u8,
    pub program: u8,
}

impl SortKey for ChunkEvent {
    /// By sample; at the same sample Note Off (false) before Note On (true).
    open spec fn sort_key(&self) -> int {
        self.sample * 2 + if self.is_on { 1int } else { 0int }
    }

    fn key(&self) -> (k: u128) {
        (self.sample as u128) * 2 + if self.is_on { 1u128 } else { 0u128 }
    }
}

/// A note sounding at a position, to be started again after a seek.
#[derive(Clone, Copy, Debug, PartialEq, Eq, Structural)]
pub struct ActiveNote {
    pub ch: u8,
    pub note: u8,
    pub vel: u8,
    pub bank: u8,
    pub program: u8,
}

/// The sample at which a time (in time units, `ups` units per second) falls for the
/// sample rate `sr`: the integer part of `units * sr / ups`, at most `usize::MAX`.
pub open spec fn sample_at(units: int, ups: int, sr: int) -> int {
    let v = units * sr / ups;
    if v > usize::MAX {
        usize::MAX as int
    } else {
        v
    }
}

/// Samples to render for a song of `d` time units: the song length in samples
/// rounded up, plus one (the rounded-up part held below `usize::MAX`).
pub open spec fn total_samples_for(d: int, ups: int, sr: int) -> int {
    let c = (d * sr + ups - 1) / ups;
    (if c > usize::MAX - 1 { (usize::MAX - 1) as int } else { c }) + 1
}

/// The Note On and Note Off events of one note; the Note Off falls at most on the
/// last sample.
pub open spec fn note_chunk_events(n: NoteEvent, ups: int, sr: int, total: int) -> Seq<ChunkEvent> {
    let on = sample_at(n.time_units as int, ups, sr);
    let off = sample_at(n.time_units + n.duration_units, ups, sr);
    seq![
        ChunkEvent { sample: on as usize, ch: n.channel, note: n.note, vel: n.velocity, is_on: true, bank: n.bank, program: n.program },
        ChunkEvent {
            sample: (if off < total - 1 { off } else { total - 1 }) as usize,
            ch: n.channel,
            note: n.note,
            vel: 0,
            is_on: false,
            bank: n.bank,
            program: n.program,
        },
    ]
}

/// The events of all notes, note by note.
pub open spec fn chunk_events_of(notes: Seq<NoteEvent>, ups: int, sr: int, total: int) -> Seq<ChunkEvent>
    decreases notes.len(),
{
    if notes.len() == 0 {
        Seq::empty()
    } else {
        chunk_events_of(notes.drop_last(), ups, sr, total) + note_chunk_events(notes.last(), ups, sr, total)
    }
}

/// A note sounds at `pos` when it has started and not yet ended there.
pub open spec fn note_active_at(n: NoteEvent, ups: int, sr: int, pos: int) -> bool {
    sample_at(n.time_units as int, ups, sr) <= pos < sample_at(n.time_units + n.duration_units, ups, sr)
}

/// The notes sounding at `pos`, in note order.
pub open spec fn active_notes(notes: Seq<NoteEvent>, ups: int, sr: int, pos: int) -> Seq<ActiveNote>
    decreases notes.len(),
{
    if notes.len() == 0 {
        Seq::empty()
    } else {
        let n = notes.last();
        active_notes(notes.drop_last(), ups, sr, pos) + if note_active_at(n, ups, sr, pos) {
            seq![ActiveNote { ch: n.channel, note: n.note, vel: n.velocity, bank: n.bank, program: n.program }]
        } else {
            Seq::empty()
        }
    }
}

/// The slot a control event sets: its channel, and the controller number of a
/// Control Change, or Program Change, or Pitch Bend (258 slots per channel).
pub open spec fn control_slot(c: MidiControlEvent) -> int {
    (c.channel & 0x0Fu8) * 258 + if c.command == 0xB0u8 {
        c.data1 as int
    } else if c.command == 0xC0u8 {
        256int
    } else {
        257int
    }
}

/// Whether the control event at `i` is in effect at sample `pos`: it has happened
/// by then, and no later event of the same slot has.
pub open spec fn control_in_effect(cs: Seq<MidiControlEvent>, i: int, ups: int, sr: int, pos: int) -> bool {
    &&& sample_at(cs[i].time_units as int, ups, sr) <= pos
    &&& forall|j: int|
        i < j < cs.len() && control_slot(#[trigger] cs[j]) == control_slot(cs[i]) ==> sample_at(
            cs[j].time_units as int,
            ups,
            sr,
        ) > pos
}

/// The control events from index `i` on that are in effect at `pos`, in order.
pub open spec fn controls_in_effect_from(cs: Seq<MidiControlEvent>, i: int, ups: int, sr: int, pos: int) -> Seq<MidiControlEvent>
    decreases cs.len() - i,
{
    if i < 0 || i >= cs.len() {
        Seq::empty()
    } else {
        let rest = controls_in_effect_from(cs, i + 1, ups, sr, pos);
        if control_in_effect(cs, i, ups, sr, pos) {
            seq![cs[i]] + rest
        } else {
            rest
        }
    }
}

/// The control values in effect at sample `pos`: for each channel and each
/// controller, program or pitch bend, the latest event at or before `pos`, in order.
pub open spec fn controls_in_effect(cs: Seq<MidiControlEvent>, ups: int, sr: int, pos: int) -> Seq<MidiControlEvent> {
    controls_in_effect_from(cs, 0, ups, sr, pos)
}

/// Whether some control event at or after index `i` sets slot `k` by sample `pos`.
pub open spec fn slot_set_from(cs: Seq<MidiControlEvent>, i: int, k: int, ups: int, sr: int, pos: int) -> bool {
    exists|j: int| i <= j < cs.len() && control_slot(#[trigger] cs[j]) == k && sample_at(cs[j].time_units as int, ups, sr) <= pos
}

proof fn lemma_control_in_effect(cs: Seq<MidiControlEvent>, i: int, ups: int, sr: int, pos: int)
    requires
        0 <= i < cs.len(),
    ensures
        control_in_effect(cs, i, ups, sr, pos) == (sample_at(cs[i].time_units as int, ups, sr) <= pos
            && !slot_set_from(cs, i + 1, control_slot(cs[i]), ups, sr, pos)),
{
    if slot_set_from(cs, i + 1, control_slot(cs[i]), ups, sr, pos) {
        let j = choose|j: int|
            i + 1 <= j < cs.len() && control_slot(#[trigger] cs[j]) == control_slot(cs[i]) && sample_at(
                cs[j].time_units as int,
                ups,
                sr,
            ) <= pos;
        assert(!control_in_effect(cs, i, ups, sr, pos));
    }
}

proof fn lemma_slot_set_step(cs: Seq<MidiControlEvent>, i: int, k: int, ups: int, sr: int, pos: int)
    requires
        0 <= i < cs.len(),
    ensures
        slot_set_from(cs, i, k, ups, sr, pos) == (slot_set_from(cs, i + 1, k, ups, sr, pos) || (control_slot(cs[i]) == k
            && sample_at(cs[i].time_units as int, ups, sr) <= pos)),
{
    if slot_set_from(cs, i, k, ups, sr, pos) {
        let j = choose|j: int|
            i <= j < cs.len() && control_slot(#[trigger] cs[j]) == k && sample_at(cs[j].time_units as int, ups, sr) <= pos;
        if j > i {
            assert(slot_set_from(cs, i + 1, k, ups, sr, pos));
        }
    }
    if slot_set_from(cs, i + 1, k, ups, sr, pos) {
        let j = choose|j: int|
            i + 1 <= j < cs.len() && control_slot(#[trigger] cs[j]) == k && sample_at(cs[j].time_units as int, ups, sr) <= pos;
        assert(slot_set_from(cs, i, k, ups, sr, pos));
    }
    if control_slot(cs[i]) == k && sample_at(cs[i].time_units as int, ups, sr) <= pos {
        assert(slot_set_from(cs, i, k, ups, sr, pos));
    }
}

/// The first index at or after `idx` whose event is at or after sample `bound`
/// (the length when there is none).
pub open spec fn advance(evs: Seq<ChunkEvent>, idx: int, bound: int) -> int
    decreases evs.len() - idx,
{
    if idx < 0 || idx >= evs.len() || evs[idx].sample >= bound {
        idx
    } else {
        advance(evs, idx + 1, bound)
    }
}

/// The blocks of a rendering of `actual` frames from sample `pos`, from frame `cur`
/// on, with the next event at `idx`: the events fired before each block and its
/// number of frames (128, the last one possibly fewer).
pub open spec fn plan_from(evs: Seq<ChunkEvent>, idx: int, pos: int, actual: int, cur: int) -> Seq<(Seq<ChunkEvent>, int)>
    decreases actual - cur,
{
    if cur >= actual {
        Seq::empty()
    } else {
        let be = if cur + 128 < actual { cur + 128 } else { actual };
        let j = advance(evs, idx, pos + be);
        seq![(evs.subrange(idx, j), be - cur)] + plan_from(evs, j, pos, actual, be)
    }
}

/// The index of the next event after the blocks of `plan_from`.
pub open spec fn plan_end_idx(evs: Seq<ChunkEvent>, idx: int, pos: int, actual: int, cur: int) -> int
    decreases actual - cur,
{
    if cur >= actual {
        idx
    } else {
        let be = if cur + 128 < actual { cur + 128 } else { actual };
        plan_end_idx(evs, advance(evs, idx, pos + be), pos, actual, be)
    }
}

/// A block of frames: the events to fire, then the number of frames to synthesize.
pub struct RenderBlock {
    pub events: Vec<ChunkEvent>,
    pub frames: usize,
}

/// What one `render_next` asks of the synthesizer, block by block.
pub struct RenderPlan {
    pub blocks: Vec<RenderBlock>,
    pub frames: usize,
}

/// The blocks as (events, frames) pairs.
pub open spec fn blocks_view(bs: Seq<RenderBlock>) -> Seq<(Seq<ChunkEvent>, int)>
    decreases bs.len(),
{
    if bs.len() == 0 {
        Seq::empty()
    } else {
        blocks_view(bs.drop_last()).push((bs.last().events@, bs.last().frames as int))
    }
}

impl RenderPlan {
    /// Number of frames of the plan.
    pub fn len(&self) -> (r: usize)
        ensures
            r == self.frames,
    {
        self.frames
    }

    /// Whether the plan has no frame.
    pub fn is_empty(&self) -> (r: bool)
        ensures
            r == (self.frames == 0),
    {
        self.frames == 0
    }
}

proof fn lemma_advance_range(evs: Seq<ChunkEvent>, idx: int, bound: int)
    requires
        0 <= idx <= evs.len(),
    ensures
        idx <= advance(evs, idx, bound) <= evs.len(),
        forall|k: int| idx <= k < advance(evs, idx, bound) ==> #[trigger] evs[k].sample < bound,
        advance(evs, idx, bound) < evs.len() ==> evs[advance(evs, idx, bound)].sample >= bound,
    decreases evs.len() - idx,
{
    if idx < evs.len() && evs[idx].sample < bound {
        lemma_advance_range(evs, idx + 1, bound);
    }
}

proof fn lemma_advance_char(evs: Seq<ChunkEvent>, idx: int, j: int, bound: int)
    requires
        0 <= idx <= j <= evs.len(),
        forall|k: int| idx <= k < j ==> #[trigger] evs[k].sample < bound,
        j < evs.len() ==> evs[j].sample >= bound,
    ensures
        advance(evs, idx, bound) == j,
    decreases j - idx,
{
    if idx < j {
        lemma_advance_char(evs, idx + 1, j, bound);
    }
}

proof fn lemma_sorted_samples(evs: Seq<ChunkEvent>, i: int, j: int)
    requires
        sorted_by_key(evs),
        0 <= i <= j < evs.len(),
    ensures
        evs[i].sample <= evs[j].sample,
{
    assert(evs[i].sort_key() <= evs[j].sort_key());
}

proof fn lemma_plan_end_idx_range(evs: Seq<ChunkEvent>, idx: int, pos: int, actual: int, cur: int)
    requires
        0 <= idx <= evs.len(),
    ensures
        idx <= plan_end_idx(evs, idx, pos, actual, cur) <= evs.len(),
    decreases actual - cur,
{
    if cur < actual {
        let be = if cur + 128 < actual { cur + 128 } else { actual };
        lemma_advance_range(evs, idx, pos + be);
        lemma_plan_end_idx_range(evs, advance(evs, idx, pos + be), pos, actual, be);
    }
}

/// `floor(units * sr / ups)`, at most `usize::MAX`.
fn sample_of(units: u128, ups: u64, sr: u32) -> (r: usize)
    requires
        ups > 0,
        units < 0x8_0000_0000_0000_0000u128,
    ensures
        r == sample_at(units as int, ups as int, sr as int),
{
    proof {
        assert(units * sr <= units * 0xFFFF_FFFFint) by (nonlinear_arith)
            requires sr <= 0xFFFF_FFFFint, units >= 0;
        assert(units * 0xFFFF_FFFFint < 0x8_0000_0000_0000_0000_0000_0000int) by (nonlinear_arith)
            requires units < 0x8_0000_0000_0000_0000int;
    }
    let v = units * (sr as u128) / (ups as u128);
    if v > usize::MAX as u128 {
        usize::MAX
    } else {
        v as usize
    }
}

// ─────────────────────────────────────────────
// Player
// ─────────────────────────────────────────────

/// Where rendering stands: the next event to fire and the next sample to render
/// (they move together).
#[derive(Clone, Copy)]
struct Cursor {
    ev_idx: usize,
    pos_sample: usize,
}

/// The playback state: the parsed song, its note events per sample (sorted) and the
/// render cursor.
pub struct Player {
    sample_rate: u32,
    midi_data: Option<MidiData>,
    events: Vec<ChunkEvent>,
    cursor: Cursor,
    total_samples: usize,
}

impl Player {
    /// The sample rate (frames per second).
    pub closed spec fn sr(&self) -> int {
        self.sample_rate as int
    }

    /// The loaded song, if any.
    pub closed spec fn midi(&self) -> Option<ParsedMidi> {
        match self.midi_data {
            Some(m) => Some(m@),
            None => None,
        }
    }

    /// The note events per sample, sorted.
    pub closed spec fn events(&self) -> Seq<ChunkEvent> {
        self.events@
    }

    /// Index of the next event to fire.
    pub closed spec fn ev_idx(&self) -> int {
        self.cursor.ev_idx as int
    }

    /// The next sample to render.
    pub closed spec fn pos(&self) -> int {
        self.cursor.pos_sample as int
    }

    /// The number of samples of the song.
    pub closed spec fn total(&self) -> int {
        self.total_samples as int
    }

    /// Time units per second of the loaded song.
    pub open spec fn ups(&self) -> int {
        self.midi().unwrap().ticks_per_quarter * 1_000_000
    }

    /// The state is consistent: the events are those of the song's notes, sorted,
    /// the cursor lies within the song, the next event to fire is the first one at or
    /// after the cursor, and the song's values (the sample rate too) are in range.
    /// Every player keeps it.
    #[verifier::type_invariant]
    pub open spec fn wf(&self) -> bool {
        &&& 0 <= self.sr() <= u32::MAX
        &&& 0 <= self.ev_idx() <= self.events().len()
        &&& 0 <= self.pos() <= self.total()
        &&& sorted_by_key(self.events())
        &&& self.ev_idx() == advance(self.events(), 0, self.pos())
        &&& match self.midi() {
            None => self.events().len() == 0 && self.total() == 0,
            Some(m) => {
                &&& 0 < m.ticks_per_quarter < 0x8000
                &&& m.duration_units < 0x4_0000_0000_0000_0000int
                &&& forall|k: int| 0 <= k < m.notes.len() ==> note_bounded(#[trigger] m.notes[k])
                &&& forall|k: int| 0 <= k < m.time_signatures.len() ==> #[trigger] m.time_signatures[k].time_units
                    < 0x1_0000_0000_0000_0000u128
                &&& forall|k: int| 0 <= k < m.texts.len() ==> #[trigger] m.texts[k].time_units
                    < 0x1_0000_0000_0000_0000u128
                &&& forall|k: int| 0 <= k < m.control_events.len() ==> #[trigger] m.control_events[k].time_units
                    < 0x1_0000_0000_0000_0000u128
                &&& forall|k: int| 0 <= k < m.notes.len() ==> #[trigger] m.notes[k].time_units + m.notes[k].duration_units <= m.duration_units
                &&& self.total() == total_samples_for(m.duration_units, self.ups(), self.sr())
                &&& self.events() == stable_sort(chunk_events_of(m.notes, self.ups(), self.sr(), self.total()))
            },
        }
    }

    /// A player with no song, for the sample rate `sample_rate`.
    pub fn new(sample_rate: u32) -> (r: Self)
        ensures
            r.sr() == sample_rate,
            r.midi() is None,
            r.pos() == 0,
            r.total() == 0,
            r.ev_idx() == 0,
    {
        Player {
            sample_rate,
            midi_data: None,
            events: Vec::new(),
            cursor: Cursor { ev_idx: 0, pos_sample: 0 },
            total_samples: 0,
        }
    }

    /// Index of the first event at or after sample `pos` (binary search).
    fn first_event_at(&self, pos: usize) -> (r: usize)
        requires
            sorted_by_key(self.events@),
        ensures
            r == advance(self.events@, 0, pos as int),
    {
        let mut lo: usize = 0;
        let mut hi: usize = self.events.len();
        while lo < hi
            invariant
                lo <= hi <= self.events@.len(),
                sorted_by_key(self.events@),
                forall|k: int| 0 <= k < lo ==> #[trigger] self.events@[k].sample < pos,
                forall|k: int| hi <= k < self.events@.len() ==> #[trigger] self.events@[k].sample >= pos,
            decreases hi - lo,
        {
            let mid = lo + (hi - lo) / 2;
            if self.events[mid].sample < pos {
                proof {
                    assert forall|k: int| 0 <= k < mid + 1 implies #[trigger] self.events@[k].sample < pos by {
                        lemma_sorted_samples(self.events@, k, mid as int);
                    }
                }
                lo = mid + 1;
            } else {
                proof {
                    assert forall|k: int| mid <= k < self.events@.len() implies #[trigger] self.events@[k].sample >= pos by {
                        lemma_sorted_samples(self.events@, mid as int, k);
                    }
                }
                hi = mid;
            }
        }
        proof {
            lemma_advance_char(self.events@, 0, lo as int, pos as int);
        }
        lo
    }

    /// Whether every sample has been scheduled.
    pub fn is_render_done(&self) -> (r: bool)
        ensures
            r == (self.pos() >= self.total()),
    {
        self.cursor.pos_sample >= self.total_samples
    }

    /// The number of samples of the song (0 before a song is loaded).
    pub fn get_total_samples(&self) -> (r: usize)
        ensures
            r == self.total(),
    {
        self.total_samples
    }

    /// The next sample to render.
    pub fn get_render_pos(&self) -> (r: usize)
        ensures
            r == self.pos(),
    {
        self.cursor.pos_sample
    }

    /// The sample rate.
    pub fn sample_rate(&self) -> (r: u32)
        ensures
            r == self.sr(),
    {
        self.sample_rate
    }

    /// The length of the loaded song in seconds (0 when none is loaded).
    pub fn get_duration(&self) -> (r: TimeSec)
        ensures
            self.midi() is None ==> r.num == 0 && r.den == 1,
            self.midi() matches Some(m) ==> r.num == m.duration_units && r.den == self.ups(),
    {
        match &self.midi_data {
            Some(d) => TimeSec { num: d.duration_units, den: d.units_per_sec() },
            None => TimeSec { num: 0, den: 1 },
        }
    }

    /// The loaded song as JSON, as `load` returned it (`[]` when none is loaded).
    pub fn get_note_events_json(&self) -> (r: String)
        ensures
            self.midi() is None ==> r@ == "[]"@,
            self.midi() matches Some(m) ==> r@ == song_json(m, self.ups() as nat),
    {
        proof {
            use_type_invariant(self);
        }
        match &self.midi_data {
            Some(d) => {
                proof {
                    assert forall|k: int| 0 <= k < d.time_signatures@.len() implies #[trigger] d.time_signatures@[k].time_units
                        < 0x1_0000_0000_0000_0000u128 by {
                        assert(d.time_signatures@[k] == self.midi().unwrap().time_signatures[k]);
                    }
                    assert forall|k: int| 0 <= k < d.texts@.len() implies #[trigger] d.texts@[k].time_units
                        < 0x1_0000_0000_0000_0000u128 by {
                        assert(d.texts@[k].time_units == self.midi().unwrap().texts[k].time_units);
                    }
                }
                song_to_json(d)
            },
            None => String::from_str("[]"),
        }
    }

    /// Parses a MIDI file and makes it the song: builds its note events per sample,
    /// puts the cursor at the start and returns the song as JSON (notes, time
    /// signatures and texts, see `song_json`). On a parse error
    /// the player is left as it was and the error message is returned.
    pub fn load(&mut self, data: &[u8]) -> (r: Result<String, String>)
        ensures
            final(self).sr() == old(self).sr(),
            match spec_parse(data@) {
                Err(e) => r is Err && r->Err_0@ == parse_error_text(e) && *final(self) == *old(self),
                Ok(m) => {
                    let ups = m.ticks_per_quarter * 1_000_000;
                    let total = total_samples_for(m.duration_units, ups, old(self).sr());
                    &&& r is Ok
                    &&& r->Ok_0@ == song_json(m, ups as nat)
                    &&& final(self).midi() == Some(m)
                    &&& final(self).total() == total
                    &&& final(self).events() == stable_sort(chunk_events_of(m.notes, ups, old(self).sr(), total))
                    &&& final(self).pos() == 0
                    &&& final(self).ev_idx() == 0
                },
            },
    {
        let midi = match parse(data) {
            Ok(m) => m,
            Err(e) => return Err(String::from_str(e.message())),
        };
        proof {
            lemma_parse_notes_sorted_and_covered(data@);
            assert(midi@ == spec_parse(data@)->Ok_0);
            assert(midi.notes@ == spec_parse(data@)->Ok_0.notes);
            assert forall|k: int| 0 <= k < midi.notes@.len() implies note_bounded(#[trigger] midi.notes@[k]) by {
                assert(note_bounded(spec_parse(data@)->Ok_0.notes[k]));
            }
            assert forall|k: int| 0 <= k < midi.notes@.len() implies #[trigger] midi.notes@[k].time_units
                + midi.notes@[k].duration_units <= midi.duration_units by {
                let m = spec_parse(data@)->Ok_0;
                assert(m.notes[k].time_units + m.notes[k].duration_units + m.ticks_per_quarter * 1_500_000 <= m.duration_units);
            }
        }
        let ups = midi.units_per_sec();
        proof {
            lemma_parse_texts(data@);
            lemma_parse_time_signatures(data@);
            let m = spec_parse(data@)->Ok_0;
            assert forall|k: int| 0 <= k < midi.texts@.len() implies #[trigger] midi.texts@[k].time_units
                < 0x1_0000_0000_0000_0000u128 by {
                assert(midi.texts@[k].time_units == midi@.texts[k].time_units);
                assert(m.texts[k].time_units < 0x1_0000_0000_0000_0000u128);
            }
            assert forall|k: int| 0 <= k < midi.time_signatures@.len() implies #[trigger] midi.time_signatures@[k].time_units
                < 0x1_0000_0000_0000_0000u128 by {
                assert(midi.time_signatures@[k] == m.time_signatures[k]);
            }
            lemma_parse_controls_bounded(data@);
        }
        let json = song_to_json(&midi);
        let sr = self.sample_rate;
        let d = midi.duration_units;
        proof {
            assert(d * sr <= d * 0xFFFF_FFFFint) by (nonlinear_arith)
                requires sr <= 0xFFFF_FFFFint, d >= 0;
            assert(d * 0xFFFF_FFFFint < 0x4_0000_0000_0000_0000_0000_0000int) by (nonlinear_arith)
                requires d < 0x4_0000_0000_0000_0000int;
        }
        let c = (d * (sr as u128) + (ups as u128) - 1) / (ups as u128);
        let total: usize = (if c > (usize::MAX - 1) as u128 { usize::MAX - 1 } else { c as usize }) + 1;
        let ghost gups = ups as int;
        let ghost gtotal = total as int;
        let mut evs: Vec<ChunkEvent> = Vec::new();
        let mut i: usize = 0;
        assert(midi.notes@.take(0) =~= Seq::<NoteEvent>::empty());
        while i < midi.notes.len()
            invariant
                i <= midi.notes@.len(),
                ups == gups,
                ups > 0,
                total == gtotal,
                total >= 1,
                forall|k: int| 0 <= k < midi.notes@.len() ==> note_bounded(#[trigger] midi.notes@[k]),
                evs@ == chunk_events_of(midi.notes@.take(i as int), gups, sr as int, gtotal),
            decreases midi.notes@.len() - i,
        {
            let n = midi.notes[i];
            assert(note_bounded(midi.notes@[i as int]));
            let on_s = sample_of(n.time_units, ups, sr);
            let off_s = sample_of(n.time_units + n.duration_units, ups, sr);
            let off_c = if off_s < total - 1 { off_s } else { total - 1 };
            evs.push(ChunkEvent { sample: on_s, ch: n.channel, note: n.note, vel: n.velocity, is_on: true, bank: n.bank, program: n.program });
            evs.push(ChunkEvent { sample: off_c, ch: n.channel, note: n.note, vel: 0, is_on: false, bank: n.bank, program: n.program });
            proof {
                let t = midi.notes@.take(i + 1);
                assert(t.drop_last() =~= midi.notes@.take(i as int));
                assert(t.last() == n);
                assert(evs@ =~= chunk_events_of(t, gups, sr as int, gtotal));
            }
            i = i + 1;
        }
        assert(midi.notes@.take(midi.notes@.len() as int) =~= midi.notes@);
        let sorted = sort_stable(&evs);
        proof {
            lemma_stable_sort_ensures(evs@);
        }
        proof {
            lemma_advance_char(sorted@, 0, 0, 0);
        }
        *self = Player {
            sample_rate: sr,
            midi_data: Some(midi),
            events: sorted,
            cursor: Cursor { ev_idx: 0, pos_sample: 0 },
            total_samples: total,
        };
        Ok(json)
    }

    /// The notes of `notes` sounding at sample `pos`.
    fn collect_active(notes: &Vec<NoteEvent>, ups: u64, sr: u32, pos: usize) -> (r: Vec<ActiveNote>)
        requires
            ups > 0,
            forall|k: int| 0 <= k < notes@.len() ==> note_bounded(#[trigger] notes@[k]),
        ensures
            r@ == active_notes(notes@, ups as int, sr as int, pos as int),
    {
        let mut out: Vec<ActiveNote> = Vec::new();
        let mut i: usize = 0;
        assert(notes@.take(0) =~= Seq::<NoteEvent>::empty());
        while i < notes.len()
            invariant
                i <= notes@.len(),
                ups > 0,
                forall|k: int| 0 <= k < notes@.len() ==> note_bounded(#[trigger] notes@[k]),
                out@ == active_notes(notes@.take(i as int), ups as int, sr as int, pos as int),
            decreases notes@.len() - i,
        {
            let n = notes[i];
            assert(note_bounded(notes@[i as int]));
            let on_s = sample_of(n.time_units, ups, sr);
            let off_s = sample_of(n.time_units + n.duration_units, ups, sr);
            if on_s <= pos && pos < off_s {
                out.push(ActiveNote { ch: n.channel, note: n.note, vel: n.velocity, bank: n.bank, program: n.program });
            }
            proof {
                let t = notes@.take(i + 1);
                assert(t.drop_last() =~= notes@.take(i as int));
                assert(t.last() == n);
                assert(out@ =~= active_notes(t, ups as int, sr as int, pos as int));
            }
            i = i + 1;
        }
        assert(notes@.take(notes@.len() as int) =~= notes@);
        out
    }

    /// The control events of `cs` in effect at sample `pos` (one backward pass,
    /// remembering which slots a later event already set).
    fn collect_controls(cs: &Vec<MidiControlEvent>, ups: u64, sr: u32, pos: usize) -> (r: Vec<MidiControlEvent>)
        requires
            ups > 0,
            forall|k: int| 0 <= k < cs@.len() ==> #[trigger] cs@[k].time_units < 0x1_0000_0000_0000_0000u128,
        ensures
            r@ == controls_in_effect(cs@, ups as int, sr as int, pos as int),
    {
        let n = cs.len();
        let ghost u = ups as int;
        let ghost f = sr as int;
        let ghost p = pos as int;
        let mut seen: Vec<bool> = vec![false; 4128];
        let mut out: Vec<MidiControlEvent> = Vec::new();
        let mut i: usize = n;
        while i > 0
            invariant
                i <= n,
                n == cs@.len(),
                ups > 0,
                u == ups as int,
                f == sr as int,
                p == pos as int,
                seen@.len() == 4128,
                forall|k: int| 0 <= k < cs@.len() ==> #[trigger] cs@[k].time_units < 0x1_0000_0000_0000_0000u128,
                out@ == controls_in_effect_from(cs@, i as int, u, f, p),
                forall|k: int| 0 <= k < 4128 ==> #[trigger] seen@[k] == slot_set_from(cs@, i as int, k, u, f, p),
            decreases i,
        {
            i = i - 1;
            let c = cs[i];
            assert(c.time_units < 0x1_0000_0000_0000_0000u128);
            let s = sample_of(c.time_units, ups, sr);
            proof {
                lemma_low_nibble(c.channel);
            }
            let ch = (c.channel & 0x0F) as usize;
            let sub: usize = if c.command == 0xB0 {
                c.data1 as usize
            } else if c.command == 0xC0 {
                256
            } else {
                257
            };
            let k = ch * 258 + sub;
            assert(k == control_slot(c));
            let ghost old_seen = seen@;
            assert(old_seen[k as int] == slot_set_from(cs@, i + 1, k as int, u, f, p));
            let fresh = s <= pos && !seen[k];
            let ghost old_out = out@;
            proof {
                lemma_control_in_effect(cs@, i as int, u, f, p);
                assert(c == cs@[i as int]);
                assert(fresh == control_in_effect(cs@, i as int, u, f, p));
                assert(old_out == controls_in_effect_from(cs@, i + 1, u, f, p));
            }
            if fresh {
                out.insert(0, c);
                seen[k] = true;
                assert(out@ =~= seq![c] + old_out);
            }
            proof {
                assert(out@ =~= controls_in_effect_from(cs@, i as int, u, f, p));
                assert forall|q: int| 0 <= q < 4128 implies #[trigger] seen@[q] == slot_set_from(cs@, i as int, q, u, f, p) by {
                    lemma_slot_set_step(cs@, i as int, q, u, f, p);
                    assert(old_seen[q] == slot_set_from(cs@, i + 1, q, u, f, p));
                }
            }
        }
        out
    }

    /// The control values in effect at the render cursor, for the synthesizer to set
    /// again after a seek (with the notes that `seek_to` returns): for each channel
    /// and each controller, program or pitch bend, the latest event at or before it.
    pub fn effective_controls(&self) -> (r: Vec<MidiControlEvent>)
        ensures
            self.midi() is None ==> r@ == Seq::<MidiControlEvent>::empty(),
            self.midi() matches Some(m) ==> r@ == controls_in_effect(m.control_events, self.ups(), self.sr(), self.pos()),
    {
        proof {
            use_type_invariant(self);
        }
        match &self.midi_data {
            Some(m) => {
                proof {
                    assert forall|k: int| 0 <= k < m.control_events@.len() implies #[trigger] m.control_events@[k].time_units
                        < 0x1_0000_0000_0000_0000u128 by {
                        assert(m.control_events@[k] == self.midi().unwrap().control_events[k]);
                    }
                }
                Self::collect_controls(&m.control_events, m.units_per_sec(), self.sample_rate, self.cursor.pos_sample)
            },
            None => Vec::new(),
        }
    }

    /// Moves the render cursor to `time` (clamped to the end of the song) and returns
    /// the notes that sound there, for the synthesizer to start again after a reset.
    pub fn seek_to(&mut self, time: TimeSec) -> (r: Vec<ActiveNote>)
        requires
            time.den > 0,
        ensures
            ({
                let t = time.num * old(self).sr() / (time.den as int);
                let p = if t < old(self).total() { t } else { old(self).total() };
                &&& final(self).pos() == p
                &&& final(self).ev_idx() == advance(old(self).events(), 0, p)
                &&& old(self).midi() is None ==> r@ == Seq::<ActiveNote>::empty()
                &&& old(self).midi() matches Some(m) ==> r@ == active_notes(m.notes, old(self).ups(), old(self).sr(), p)
            }),
            final(self).events() == old(self).events(),
            final(self).midi() == old(self).midi(),
            final(self).total() == old(self).total(),
            final(self).sr() == old(self).sr(),
    {
        proof {
            use_type_invariant(&*self);
        }
        let sr = self.sample_rate as u128;
        let den = time.den as u128;
        let total = self.total_samples;
        let q = time.num / den;
        let rem = time.num % den;
        proof {
            lemma_div_split(time.num as int, den as int, sr as int);
        }
        let pos: usize = if sr == 0 {
            0
        } else if q >= total as u128 {
            proof {
                assert(q * sr >= q) by (nonlinear_arith) requires sr >= 1, q >= 0;
                assert(0 <= (rem * sr) / (den as int)) by (nonlinear_arith) requires rem >= 0, sr >= 0, den > 0;
            }
            total
        } else {
            proof {
                assert(q * sr <= q * 0xFFFF_FFFFint) by (nonlinear_arith) requires sr <= 0xFFFF_FFFFint, q >= 0;
                assert(q * 0xFFFF_FFFFint < 0x1_0000_0000_0000_0000_0000_0000int) by (nonlinear_arith)
                    requires q < 0x1_0000_0000_0000_0000int;
                assert(rem * sr <= rem * 0xFFFF_FFFFint) by (nonlinear_arith) requires sr <= 0xFFFF_FFFFint, rem >= 0;
                assert(rem * 0xFFFF_FFFFint < 0x1_0000_0000_0000_0000_0000_0000int) by (nonlinear_arith)
                    requires rem < 0x1_0000_0000_0000_0000int;
                assert((rem * sr) / (den as int) <= rem * sr) by (nonlinear_arith) requires rem * sr >= 0, den >= 1;
            }
            let v = q * sr + (rem * sr) / den;
            if v >= total as u128 {
                total
            } else {
                v as usize
            }
        };
        proof {
            let t = time.num * (sr as int) / (den as int);
            if sr == 0 {
                assert(time.num * 0 == 0);
                assert(t == 0);
            }
            assert(pos == (if t < total { t } else { total as int }));
            lemma_advance_range(self.events@, 0, pos as int);
        }
        let active = match &self.midi_data {
            Some(m) => Self::collect_active(&m.notes, m.units_per_sec(), self.sample_rate, pos),
            None => Vec::new(),
        };
        let idx = self.first_event_at(pos);
        self.cursor = Cursor { ev_idx: idx, pos_sample: pos };
        active
    }

    /// Schedules the next `frames` samples (fewer at the end of the song, none when
    /// it is done): block of 128 frames by block, the note events that fall before
    /// the end of the block, then the block. The cursor moves past them.
    pub fn render_next(&mut self, frames: usize) -> (r: RenderPlan)
        ensures
            final(self).events() == old(self).events(),
            final(self).midi() == old(self).midi(),
            final(self).total() == old(self).total(),
            final(self).sr() == old(self).sr(),
            old(self).pos() >= old(self).total() ==> r.frames == 0 && r.blocks@.len() == 0
                && final(self).pos() == old(self).pos() && final(self).ev_idx() == old(self).ev_idx(),
            old(self).pos() < old(self).total() ==> ({
                let end = if old(self).pos() + frames < old(self).total() { old(self).pos() + frames } else { old(self).total() };
                let actual = end - old(self).pos();
                &&& r.frames == actual
                &&& blocks_view(r.blocks@) == plan_from(old(self).events(), old(self).ev_idx(), old(self).pos(), actual, 0)
                &&& final(self).ev_idx() == plan_end_idx(old(self).events(), old(self).ev_idx(), old(self).pos(), actual, 0)
                &&& final(self).pos() == end
            }),
    {
        proof {
            use_type_invariant(&*self);
        }
        if self.cursor.pos_sample >= self.total_samples {
            return RenderPlan { blocks: Vec::new(), frames: 0 };
        }
        let pos = self.cursor.pos_sample;
        let end = if frames > self.total_samples - pos { self.total_samples } else { pos + frames };
        let actual = end - pos;
        let ghost evs = self.events@;
        let ghost idx0 = self.cursor.ev_idx as int;
        let mut idx = self.cursor.ev_idx;
        let mut blocks: Vec<RenderBlock> = Vec::new();
        let mut cur: usize = 0;
        assert(blocks_view(blocks@) + plan_from(evs, idx0, pos as int, actual as int, 0) =~= plan_from(evs, idx0, pos as int, actual as int, 0));
        while cur < actual
            invariant
                cur <= actual,
                pos + actual == end,
                evs == self.events@,
                idx <= evs.len(),
                blocks_view(blocks@) + plan_from(evs, idx as int, pos as int, actual as int, cur as int)
                    == plan_from(evs, idx0, pos as int, actual as int, 0),
                plan_end_idx(evs, idx as int, pos as int, actual as int, cur as int)
                    == plan_end_idx(evs, idx0, pos as int, actual as int, 0),
            decreases actual - cur,
        {
            let blk_end = if actual - cur > 128 { cur + 128 } else { actual };
            let abs_end = pos + blk_end;
            let start = idx;
            let mut blk_events: Vec<ChunkEvent> = Vec::new();
            assert(blk_events@ =~= evs.subrange(start as int, idx as int));
            while idx < self.events.len() && self.events[idx].sample < abs_end
                invariant
                    start <= idx <= evs.len(),
                    evs == self.events@,
                    blk_events@ == evs.subrange(start as int, idx as int),
                    advance(evs, start as int, abs_end as int) == advance(evs, idx as int, abs_end as int),
                decreases evs.len() - idx,
            {
                blk_events.push(self.events[idx]);
                idx = idx + 1;
                assert(blk_events@ =~= evs.subrange(start as int, idx as int));
            }
            let ghost x = (blk_events@, (blk_end - cur) as int);
            let ghost old_blocks = blocks@;
            blocks.push(RenderBlock { events: blk_events, frames: blk_end - cur });
            proof {
                assert(blocks@.drop_last() =~= old_blocks);
                assert(blocks_view(blocks@) == blocks_view(old_blocks).push(x));
                let rest = plan_from(evs, idx as int, pos as int, actual as int, blk_end as int);
                assert(plan_from(evs, start as int, pos as int, actual as int, cur as int) == seq![x] + rest);
                assert(blocks_view(old_blocks).push(x) + rest =~= blocks_view(old_blocks) + (seq![x] + rest));
            }
            cur = blk_end;
        }
        assert(blocks_view(blocks@) + Seq::<(Seq<ChunkEvent>, int)>::empty() =~= blocks_view(blocks@));
        proof {
            if actual > 0 {
                lemma_plan_end_is_advance(evs, idx0, pos as int, actual as int, 0);
                lemma_advance_compose(evs, 0, pos as int, end as int);
            }
        }
        self.cursor = Cursor { ev_idx: idx, pos_sample: end };
        RenderPlan { blocks, frames: actual }
    }
}

/// `floor(a * s / d) == floor(a / d) * s + floor((a % d) * s / d)`.
proof fn lemma_div_split(a: int, d: int, s: int)
    requires
        a >= 0,
        d > 0,
        s >= 0,
    ensures
        a * s / d == (a / d) * s + ((a % d) * s) / d,
{
    let q = a / d;
    let r = a % d;
    vstd::arithmetic::div_mod::lemma_fundamental_div_mod(a, d);
    assert(a * s == r * s + (q * s) * d) by (nonlinear_arith) requires a == d * q + r;
    vstd::arithmetic::div_mod::lemma_hoist_over_denominator(r * s, q * s, d as nat);
}

// ─────────────────────────────────────────────
// Laws of the render schedule
// ─────────────────────────────────────────────

/// Total number of frames of a list of blocks.
pub open spec fn plan_frames(p: Seq<(Seq<ChunkEvent>, int)>) -> int
    decreases p.len(),
{
    if p.len() == 0 {
        0
    } else {
        p[0].1 + plan_frames(p.drop_first())
    }
}

/// All events of a list of blocks, in firing order.
pub open spec fn plan_events(p: Seq<(Seq<ChunkEvent>, int)>) -> Seq<ChunkEvent>
    decreases p.len(),
{
    if p.len() == 0 {
        Seq::empty()
    } else {
        p[0].0 + plan_events(p.drop_first())
    }
}

/// The blocks of a schedule cover exactly its frames, in blocks of 1 to 128
/// frames, and fire the events from the cursor on, each once and in order.
pub proof fn lemma_plan_covers(evs: Seq<ChunkEvent>, idx: int, pos: int, actual: int, cur: int)
    requires
        0 <= idx <= evs.len(),
        0 <= cur <= actual,
    ensures
        plan_frames(plan_from(evs, idx, pos, actual, cur)) == actual - cur,
        forall|b: int| 0 <= b < plan_from(evs, idx, pos, actual, cur).len() ==> 0 < #[trigger] plan_from(evs, idx, pos, actual, cur)[b].1 <= 128,
        idx <= plan_end_idx(evs, idx, pos, actual, cur) <= evs.len(),
        plan_events(plan_from(evs, idx, pos, actual, cur)) == evs.subrange(idx, plan_end_idx(evs, idx, pos, actual, cur)),
    decreases actual - cur,
{
    if cur < actual {
        let be = if cur + 128 < actual { cur + 128 } else { actual };
        let j = advance(evs, idx, pos + be);
        lemma_advance_range(evs, idx, pos + be);
        lemma_plan_covers(evs, j, pos, actual, be);
        let x = (evs.subrange(idx, j), be - cur);
        let rest = plan_from(evs, j, pos, actual, be);
        let p = plan_from(evs, idx, pos, actual, cur);
        assert(p == seq![x] + rest);
        assert(p.drop_first() =~= rest);
        assert(p[0] == x);
        assert forall|b: int| 0 <= b < p.len() implies 0 < #[trigger] p[b].1 <= 128 by {
            if b > 0 {
                assert(p[b] == rest[b - 1]);
            }
        }
        let e = plan_end_idx(evs, idx, pos, actual, cur);
        assert(evs.subrange(idx, j) + evs.subrange(j, e) =~= evs.subrange(idx, e));
    } else {
        assert(evs.subrange(idx, idx) =~= Seq::<ChunkEvent>::empty());
    }
}

/// Frames given by calling `render_next(chunk)` from sample `pos` until the song
/// of `total` samples is done: each call gives `chunk` frames, or what is left.
pub open spec fn frames_to_done(pos: int, total: int, chunk: int) -> int
    decreases total - pos,
{
    if chunk <= 0 || pos >= total {
        0
    } else {
        let f = if pos + chunk < total { chunk } else { total - pos };
        f + frames_to_done(pos + f, total, chunk)
    }
}

/// Rendering chunk after chunk until done gives exactly the samples left.
pub proof fn lemma_frames_to_done(pos: int, total: int, chunk: int)
    requires
        chunk > 0,
        0 <= pos <= total,
    ensures
        frames_to_done(pos, total, chunk) == total - pos,
    decreases total - pos,
{
    if pos < total {
        let f = if pos + chunk < total { chunk } else { total - pos };
        lemma_frames_to_done(pos + f, total, chunk);
    }
}

/// Advancing to `b1` and then to a later `b2` is advancing to `b2`.
proof fn lemma_advance_compose(evs: Seq<ChunkEvent>, idx: int, b1: int, b2: int)
    requires
        0 <= idx <= evs.len(),
        b1 <= b2,
    ensures
        advance(evs, advance(evs, idx, b1), b2) == advance(evs, idx, b2),
    decreases evs.len() - idx,
{
    if idx < evs.len() && evs[idx].sample < b1 {
        lemma_advance_compose(evs, idx + 1, b1, b2);
    }
}

/// After a schedule of `actual > 0` frames from `pos`, the next event is the first
/// one at or after `pos + actual`: every event before the new cursor has fired.
pub proof fn lemma_plan_end_is_advance(evs: Seq<ChunkEvent>, idx: int, pos: int, actual: int, cur: int)
    requires
        0 <= idx <= evs.len(),
        cur < actual,
    ensures
        plan_end_idx(evs, idx, pos, actual, cur) == advance(evs, idx, pos + actual),
    decreases actual - cur,
{
    let be = if cur + 128 < actual { cur + 128 } else { actual };
    let j = advance(evs, idx, pos + be);
    lemma_advance_range(evs, idx, pos + be);
    assert(plan_end_idx(evs, idx, pos, actual, cur) == plan_end_idx(evs, j, pos, actual, be));
    if be < actual {
        lemma_plan_end_is_advance(evs, j, pos, actual, be);
        lemma_advance_compose(evs, idx, pos + be, pos + actual);
    } else {
        assert(plan_end_idx(evs, j, pos, actual, be) == j);
    }
}

/// A render of `actual` frames from sample `pos` (with the cursor where a
/// consistent player keeps it) fires exactly the events whose sample falls in
/// `pos .. pos + actual`, in their order, and no other.
pub proof fn lemma_render_fires_window(evs: Seq<ChunkEvent>, pos: int, actual: int)
    requires
        sorted_by_key(evs),
        0 <= actual,
    ensures
        plan_events(plan_from(evs, advance(evs, 0, pos), pos, actual, 0))
            == evs.subrange(advance(evs, 0, pos), advance(evs, 0, pos + actual)),
        forall|k: int| 0 <= k < evs.len() ==>
            ((advance(evs, 0, pos) <= k < advance(evs, 0, pos + actual)) <==> (pos <= #[trigger] evs[k].sample < pos + actual)),
{
    let a = advance(evs, 0, pos);
    let b = advance(evs, 0, pos + actual);
    lemma_advance_range(evs, 0, pos);
    lemma_advance_range(evs, 0, pos + actual);
    lemma_plan_covers(evs, a, pos, actual, 0);
    if actual > 0 {
        lemma_plan_end_is_advance(evs, a, pos, actual, 0);
        lemma_advance_compose(evs, 0, pos, pos + actual);
    }
    assert forall|k: int| 0 <= k < evs.len() implies
        ((a <= k < b) <==> (pos <= #[trigger] evs[k].sample < pos + actual)) by {
        if a <= k && a < evs.len() {
            lemma_sorted_samples(evs, a, k);
        }
        if b <= k && b < evs.len() {
            lemma_sorted_samples(evs, b, k);
        }
    }
}

/// Rendering in chunks is seamless: a render of `a` frames followed by one of `b`
/// frames schedules as many frames, and fires the same events in the same order,
/// as one render of `a + b` frames from the same position.
pub proof fn lemma_chunks_are_seamless(evs: Seq<ChunkEvent>, pos: int, a: int, b: int)
    requires
        sorted_by_key(evs),
        0 <= a,
        0 <= b,
    ensures
        plan_frames(plan_from(evs, advance(evs, 0, pos), pos, a, 0))
            + plan_frames(plan_from(evs, advance(evs, 0, pos + a), pos + a, b, 0))
            == plan_frames(plan_from(evs, advance(evs, 0, pos), pos, a + b, 0)),
        plan_events(plan_from(evs, advance(evs, 0, pos), pos, a, 0))
            + plan_events(plan_from(evs, advance(evs, 0, pos + a), pos + a, b, 0))
            == plan_events(plan_from(evs, advance(evs, 0, pos), pos, a + b, 0)),
{
    let i = advance(evs, 0, pos);
    let j = advance(evs, 0, pos + a);
    let k = advance(evs, 0, pos + a + b);
    lemma_advance_range(evs, 0, pos);
    lemma_advance_range(evs, i, pos + a);
    lemma_advance_compose(evs, 0, pos, pos + a);
    lemma_advance_range(evs, j, pos + a + b);
    lemma_advance_compose(evs, 0, pos + a, pos + a + b);
    lemma_plan_covers(evs, i, pos, a, 0);
    lemma_plan_covers(evs, j, pos + a, b, 0);
    lemma_plan_covers(evs, i, pos, a + b, 0);
    lemma_render_fires_window(evs, pos, a);
    lemma_render_fires_window(evs, pos + a, b);
    lemma_render_fires_window(evs, pos, a + b);
    assert(evs.subrange(i, j) + evs.subrange(j, k) =~= evs.subrange(i, k));
}

proof fn lemma_sample_at_mono(u1: int, u2: int, ups: int, sr: int)
    requires
        0 <= u1 <= u2,
        ups > 0,
        sr >= 0,
    ensures
        sample_at(u1, ups, sr) <= sample_at(u2, ups, sr),
        sample_at(u2, ups, sr) <= u2 * sr / ups,
{
    vstd::arithmetic::mul::lemma_mul_inequality(u1, u2, sr);
    vstd::arithmetic::div_mod::lemma_div_is_ordered(u1 * sr, u2 * sr, ups);
}

proof fn lemma_chunk_events_before(notes: Seq<NoteEvent>, ups: int, sr: int, total: int, d: int)
    requires
        ups > 0,
        sr >= 0,
        total >= 1,
        forall|k: int| 0 <= k < notes.len() ==> #[trigger] notes[k].time_units + notes[k].duration_units <= d,
        d * sr / ups < total,
    ensures
        forall|i: int| 0 <= i < chunk_events_of(notes, ups, sr, total).len() ==> #[trigger] chunk_events_of(notes, ups, sr, total)[i].sample < total,
    decreases notes.len(),
{
    if notes.len() > 0 {
        let t = notes.drop_last();
        assert forall|k: int| 0 <= k < t.len() implies #[trigger] t[k].time_units + t[k].duration_units <= d by {
            assert(t[k] == notes[k]);
        }
        lemma_chunk_events_before(t, ups, sr, total, d);
        let n = notes.last();
        assert(n.time_units + n.duration_units <= d);
        lemma_sample_at_mono(n.time_units as int, d, ups, sr);
        let a = chunk_events_of(t, ups, sr, total);
        let b = note_chunk_events(n, ups, sr, total);
        let c = chunk_events_of(notes, ups, sr, total);
        assert forall|i: int| 0 <= i < c.len() implies #[trigger] c[i].sample < total by {
            if i < a.len() {
                assert(c[i] == a[i]);
            } else {
                assert(c[i] == b[i - a.len()]);
            }
        }
    }
}

/// Once a loaded song has been rendered to its end, every note event has fired:
/// all events fall before the last sample, so advancing the cursor to the end
/// passes them all (when the song's sample count is not held at `usize::MAX`).
pub proof fn lemma_end_fires_every_event(p: &Player, idx: int)
    requires
        p.wf(),
        p.midi() is Some,
        (p.midi().unwrap().duration_units * p.sr() + p.ups() - 1) / p.ups() < usize::MAX - 1,
        0 <= idx <= p.events().len(),
    ensures
        advance(p.events(), idx, p.total()) == p.events().len(),
{
    broadcast use vstd::seq_lib::group_to_multiset_ensures;

    let m = p.midi().unwrap();
    let ups = p.ups();
    let sr = p.sr();
    let total = p.total();
    let d = m.duration_units;
    assert(d * sr / ups <= (d * sr + ups - 1) / ups) by {
        vstd::arithmetic::div_mod::lemma_div_is_ordered(d * sr, d * sr + ups - 1, ups);
    }
    assert(d * sr >= 0) by (nonlinear_arith) requires d >= 0, sr >= 0;
    lemma_chunk_events_before(m.notes, ups, sr, total, d);
    let raw = chunk_events_of(m.notes, ups, sr, total);
    let evs = p.events();
    lemma_stable_sort_ensures(raw);
    assert forall|k: int| idx <= k < evs.len() implies #[trigger] evs[k].sample < total by {
        let e = evs[k];
        assert(evs.contains(e));
        assert(evs.to_multiset().count(e) > 0);
        assert(raw.to_multiset().count(e) > 0);
        assert(raw.contains(e));
        let j = choose|j: int| 0 <= j < raw.len() && raw[j] == e;
        assert(raw[j].sample < total);
    }
    lemma_advance_char(evs, idx, evs.len() as int, total);
}

// ─────────────────────────────────────────────
// Laws of a note's schedule, of a seek and of the JSON
// ─────────────────────────────────────────────

proof fn lemma_chunk_events_of_index(notes: Seq<NoteEvent>, ups: int, sr: int, total: int)
    ensures
        chunk_events_of(notes, ups, sr, total).len() == 2 * notes.len(),
        forall|k: int| 0 <= k < notes.len() ==> chunk_events_of(notes, ups, sr, total)[2 * k]
            == note_chunk_events(#[trigger] notes[k], ups, sr, total)[0] && chunk_events_of(notes, ups, sr, total)[2 * k + 1]
            == note_chunk_events(notes[k], ups, sr, total)[1],
    decreases notes.len(),
{
    if notes.len() > 0 {
        let t = notes.drop_last();
        lemma_chunk_events_of_index(t, ups, sr, total);
        let a = chunk_events_of(t, ups, sr, total);
        let all = chunk_events_of(notes, ups, sr, total);
        assert forall|k: int| 0 <= k < notes.len() implies all[2 * k] == note_chunk_events(#[trigger] notes[k], ups, sr, total)[0]
            && all[2 * k + 1] == note_chunk_events(notes[k], ups, sr, total)[1] by {
            if k < t.len() {
                assert(notes[k] == t[k]);
                assert(all[2 * k] == a[2 * k]);
                assert(all[2 * k + 1] == a[2 * k + 1]);
            }
        }
    }
}

/// In the schedule of a loaded song, every note has its Note On at the sample
/// where it starts, `floor(start * sr / ups)`, and its Note Off at the sample where
/// it ends, `floor((start + length) * sr / ups)` (its end, not its length), held
/// to the last sample of the song; a Note On within the song never comes after
/// its Note Off.
pub proof fn lemma_schedule_of_each_note(p: &Player, k: int)
    requires
        p.wf(),
        p.midi() is Some,
        0 <= k < p.midi().unwrap().notes.len(),
    ensures
        ({
            let n = p.midi().unwrap().notes[k];
            let start = n.time_units * p.sr() / p.ups();
            let end = (n.time_units + n.duration_units) * p.sr() / p.ups();
            let on_s = if start > usize::MAX { usize::MAX as int } else { start };
            let end_s = if end > usize::MAX { usize::MAX as int } else { end };
            let off_s = if end_s < p.total() - 1 { end_s } else { p.total() - 1 };
            &&& p.events().contains(
                ChunkEvent { sample: on_s as usize, ch: n.channel, note: n.note, vel: n.velocity, is_on: true, bank: n.bank, program: n.program },
            )
            &&& p.events().contains(
                ChunkEvent { sample: off_s as usize, ch: n.channel, note: n.note, vel: 0, is_on: false, bank: n.bank, program: n.program },
            )
            &&& on_s < p.total() ==> on_s <= off_s
        }),
{
    broadcast use vstd::seq_lib::group_to_multiset_ensures;

    let m = p.midi().unwrap();
    let n = m.notes[k];
    let ups = p.ups();
    let sr = p.sr();
    let total = p.total();
    let raw = chunk_events_of(m.notes, ups, sr, total);
    lemma_chunk_events_of_index(m.notes, ups, sr, total);
    lemma_stable_sort_ensures(raw);
    let evs = p.events();
    let on_e = raw[2 * k];
    let off_e = raw[2 * k + 1];
    assert(raw.contains(on_e));
    assert(raw.to_multiset().count(on_e) > 0);
    assert(evs.to_multiset().count(on_e) > 0);
    assert(raw.contains(off_e));
    assert(raw.to_multiset().count(off_e) > 0);
    assert(evs.to_multiset().count(off_e) > 0);
    lemma_sample_at_mono(n.time_units as int, n.time_units + n.duration_units, ups, sr);
}

/// The notes reported as sounding at sample `pos` are exactly, in note order, the
/// notes whose start sample `floor(start * sr / ups)` is at or before `pos` and
/// whose end sample `floor((start + length) * sr / ups)` is after it.
pub proof fn lemma_active_notes_are_the_sounding_ones(notes: Seq<NoteEvent>, ups: int, sr: int, pos: int)
    requires
        ups > 0,
        sr >= 0,
        0 <= pos < usize::MAX,
    ensures
        active_notes(notes, ups, sr, pos) == notes.filter(
            |n: NoteEvent| n.time_units * sr / ups <= pos && pos < (n.time_units + n.duration_units) * sr / ups,
        ).map_values(
            |n: NoteEvent| ActiveNote { ch: n.channel, note: n.note, vel: n.velocity, bank: n.bank, program: n.program },
        ),
    decreases notes.len(),
{
    reveal(Seq::filter);
    if notes.len() > 0 {
        lemma_active_notes_are_the_sounding_ones(notes.drop_last(), ups, sr, pos);
        let n = notes.last();
        let t = n.time_units * sr / ups;
        let e = (n.time_units + n.duration_units) * sr / ups;
        assert(note_active_at(n, ups, sr, pos) == (t <= pos && pos < e));
        let f = notes.filter(
            |n: NoteEvent| n.time_units * sr / ups <= pos && pos < (n.time_units + n.duration_units) * sr / ups,
        );
        let g = notes.drop_last().filter(
            |n: NoteEvent| n.time_units * sr / ups <= pos && pos < (n.time_units + n.duration_units) * sr / ups,
        );
        let to = |n: NoteEvent| ActiveNote { ch: n.channel, note: n.note, vel: n.velocity, bank: n.bank, program: n.program };
        if t <= pos && pos < e {
            assert(f == g.push(n));
            assert(f.map_values(to) =~= g.map_values(to) + seq![to(n)]);
        } else {
            assert(f == g);
            assert(g.map_values(to) =~= g.map_values(to) + Seq::<ActiveNote>::empty());
        }
    }
}

/// The `"time"` and `"dur"` fields of a note's JSON object are its start and its
/// length in seconds (four decimals): the object begins with the tick and the
/// start, and ends with the length, whatever the start.
pub proof fn lemma_note_json_start_and_length(n: NoteEvent, ups: nat)
    ensures
        ("{\"tick\":"@ + dec(n.tick as nat) + ",\"time\":"@ + fixed4(n.time_units as nat, ups) + ","@).is_prefix_of(
            note_json(n, ups),
        ),
        (",\"dur\":"@ + fixed4(n.duration_units as nat, ups) + "}"@).is_suffix_of(note_json(n, ups)),
{
    reveal_strlit(",\"ch\":");
    let head = "{\"tick\":"@ + dec(n.tick as nat) + ",\"time\":"@ + fixed4(n.time_units as nat, ups);
    let mid = ",\"ch\":"@ + dec(n.channel as nat) + ",\"note\":"@ + dec(n.note as nat) + ",\"vel\":"@ + dec(n.velocity as nat);
    let tail = ",\"dur\":"@ + fixed4(n.duration_units as nat, ups) + "}"@;
    let j = note_json(n, ups);
    assert(j =~= head + mid + tail);
    assert(mid[0] == ',');
    let pre = head + ","@;
    reveal_strlit(",");
    assert(pre =~= j.subrange(0, pre.len() as int));
    assert(tail =~= j.subrange(j.len() - tail.len(), j.len() as int));
}

} // verus!
