//! Core of a MIDI / MML player: a Standard MIDI File parser, the sample-accurate
//! playback schedule, the routing of the hybrid synthesizer, text decoding (MML
//! sources and MIDI texts), and a small xorshift random generator, each with its
//! contract.

pub mod cli;
pub mod midi_parser;
pub mod player;
pub mod psg;
pub mod soundfont;
pub mod sort;
pub mod synth;
pub mod utils;

use vstd::prelude::*;
use vstd::utf8::{valid_utf8, decode_utf8, encode_utf8};

verus! {

// ─────────────────────────────────────────────
// MML compilation results
// ─────────────────────────────────────────────

/// The MIDI bytes and the compile log of an MML source.
///
/// The MML compiler (`sakuramml::compile`) is called by the program around this
/// library, not from a verified function: it runs user-defined MML functions by
/// running their bodies again with no limit on the depth, so a source whose
/// functions call themselves without end overflows the stack, and no precondition
/// over the source could tell those sources apart.
pub struct CompileResult {
    bin: Vec<u8>,
    log: String,
}

impl CompileResult {
    /// The MIDI bytes.
    pub closed spec fn bin_view(&self) -> Seq<u8> {
        self.bin@
    }

    /// The compile log.
    pub closed spec fn log_view(&self) -> Seq<char> {
        self.log@
    }

    /// A result made of MIDI bytes and a log.
    pub fn new(bin: Vec<u8>, log: String) -> (r: Self)
        ensures
            r.bin_view() == bin@,
            r.log_view() == log@,
    {
        CompileResult { bin, log }
    }

    /// The MIDI bytes.
    pub fn bin(&self) -> (r: Vec<u8>)
        ensures
            r@ == self.bin_view(),
    {
        let r = self.bin.clone();
        assert(r@ =~= self.bin@);
        r
    }

    /// The compile log.
    pub fn log(&self) -> (r: String)
        ensures
            r@ == self.log_view(),
    {
        self.log.clone()
    }
}

// ─────────────────────────────────────────────
// Text decoding
// ─────────────────────────────────────────────

/// What `encoding_rs::SHIFT_JIS.decode` gives for some bytes: the text, after BOM
/// sniffing, with malformed sequences replaced by U+FFFD.
pub uninterp spec fn shift_jis_decode(bytes: Seq<u8>) -> Seq<char>;

/// Calls `std::str::from_utf8`: the text when the bytes are valid UTF-8.
#[verifier::external_body]
fn utf8_text(data: &[u8]) -> (r: Option<String>)
    ensures
        r is Some <==> valid_utf8(data@),
        r matches Some(s) ==> s@ == decode_utf8(data@),
{
    match std::str::from_utf8(data) {
        Ok(s) => Some(s.to_string()),
        Err(_) => None,
    }
}

/// Calls `encoding_rs::SHIFT_JIS.decode` and keeps the decoded text. The call
/// panics only when the size of its output buffer overflows `usize`, which the
/// length bound rules out.
#[verifier::external_body]
fn shift_jis_text(data: &[u8]) -> (r: String)
    requires
        data@.len() <= usize::MAX / 4,
    ensures
        r@ == shift_jis_decode(data@),
{
    let (cow, _encoding_used, _had_errors) = encoding_rs::SHIFT_JIS.decode(data);
    cow.into_owned()
}

/// The text of bytes that may be Shift_JIS: their UTF-8 reading when they are
/// valid UTF-8, else their Shift_JIS reading.
pub open spec fn decoded_text(bytes: Seq<u8>) -> Seq<char> {
    if valid_utf8(bytes) {
        decode_utf8(bytes)
    } else {
        shift_jis_decode(bytes)
    }
}

/// Decodes bytes that may be Shift_JIS: as UTF-8 when they are valid UTF-8, else as
/// Shift_JIS.
pub fn encoding_to_utf8(data: &[u8]) -> (r: String)
    requires
        !valid_utf8(data@) ==> data@.len() <= usize::MAX / 4,
    ensures
        r@ == decoded_text(data@),
        valid_utf8(data@) ==> encode_utf8(r@) == data@,
{
    proof {
        if valid_utf8(data@) {
            vstd::utf8::decode_utf8_encode_utf8(data@);
        }
    }
    match utf8_text(data) {
        Some(s) => s,
        None => shift_jis_text(data),
    }
}

/// Text written as UTF-8 reads back as itself.
pub proof fn lemma_utf8_text_round_trip(text: Seq<char>)
    ensures
        decoded_text(encode_utf8(text)) == text,
{
    vstd::utf8::encode_utf8_valid_utf8(text);
    vstd::utf8::encode_utf8_decode_utf8(text);
}

} // verus!
