//! Helpers of the command-line player.

use vstd::prelude::*;

verus! {

/// The CLI renders about half a second per chunk.
pub const CLI_CHUNK_DIVISOR: usize = 2;

/// The smallest chunk the CLI renders, in frames.
pub const CLI_MIN_CHUNK_FRAMES: usize = 2048;

/// Frames rendered per chunk by the CLI: half the sample rate, at least 2048.
pub fn cli_chunk_frames(sample_rate: u32) -> (r: usize)
    ensures
        r == (if sample_rate as int / 2 > 2048 { sample_rate as int / 2 } else { 2048 }),
{
    let half = (sample_rate as usize) / CLI_CHUNK_DIVISOR;
    if half > CLI_MIN_CHUNK_FRAMES {
        half
    } else {
        CLI_MIN_CHUNK_FRAMES
    }
}

/// The name of a text meta event type (0x01 to 0x07), or "Unknown".
pub open spec fn meta_text_name(text_type: u8) -> Seq<char> {
    if text_type == 0x01 {
        "Text"@
    } else if text_type == 0x02 {
        "Copyright"@
    } else if text_type == 0x03 {
        "TrackName"@
    } else if text_type == 0x04 {
        "InstrumentName"@
    } else if text_type == 0x05 {
        "Lyric"@
    } else if text_type == 0x06 {
        "Marker"@
    } else if text_type == 0x07 {
        "CuePoint"@
    } else {
        "Unknown"@
    }
}

/// The name of a text meta event type (0x01 to 0x07), or "Unknown".
pub fn meta_text_type_name(text_type: u8) -> (r: &'static str)
    ensures
        r@ == meta_text_name(text_type),
{
    match text_type {
        0x01 => "Text",
        0x02 => "Copyright",
        0x03 => "TrackName",
        0x04 => "InstrumentName",
        0x05 => "Lyric",
        0x06 => "Marker",
        0x07 => "CuePoint",
        _ => "Unknown",
    }
}

/// The two bytes after each 0xFF byte found at a position below `n` (a meta event's
/// type and, for short events, its length), in order.
pub open spec fn meta_byte_pairs(data: Seq<u8>, n: int) -> Seq<(u8, u8)>
    decreases n,
{
    if n <= 0 {
        Seq::empty()
    } else {
        let r = meta_byte_pairs(data, n - 1);
        if data[n - 1] == 0xFF {
            r.push((data[n], data[n + 1]))
        } else {
            r
        }
    }
}

/// Scans raw MIDI bytes for 0xFF, up to the third-to-last byte, and gives the two
/// bytes that follow each one (what the CLI prints as "Meta Event: type, len").
pub fn meta_event_dump(data: &[u8]) -> (r: Vec<(u8, u8)>)
    requires
        data@.len() >= 2,
    ensures
        r@ == meta_byte_pairs(data@, data@.len() - 2),
{
    let n = data.len() - 2;
    let mut out: Vec<(u8, u8)> = Vec::new();
    let mut i: usize = 0;
    while i < n
        invariant
            n == data@.len() - 2,
            i <= n,
            out@ == meta_byte_pairs(data@, i as int),
        decreases n - i,
    {
        if data[i] == 0xFF {
            out.push((data[i + 1], data[i + 2]));
        }
        i = i + 1;
    }
    out
}

} // verus!
