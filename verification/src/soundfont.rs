//! Loading a SoundFont for the process-wide slot: only one SoundFont is kept, and
//! the caller holds that slot and tells whether it is already filled.
//!
//! The parse itself (`rustysynth::SoundFont::new`) is made by the caller, not by a
//! verified function: the parser indexes its generator and zone tables with indices
//! read from the file without checking them, so some malformed files make it panic,
//! and no precondition over the bytes could tell those files apart. This module
//! decides what becomes of the parse result.

use vstd::prelude::*;

verus! {

/// A parsed SoundFont (opaque).
#[verifier::external_type_specification]
#[verifier::external_body]
pub struct ExSoundFont(rustysynth::SoundFont);

/// What loading gives for a parse result (the SoundFont, or the parser's message)
/// when the slot is or is not filled: the SoundFont when it parsed and the slot is
/// empty; "SoundFont already loaded" when it parsed but the slot is filled;
/// "Failed to parse SoundFont: " followed by the parser's message when it did not
/// parse.
pub fn load_soundfont(slot_filled: bool, parsed: Result<rustysynth::SoundFont, String>) -> (r: Result<
    rustysynth::SoundFont,
    String,
>)
    ensures
        parsed is Ok && !slot_filled ==> r == parsed,
        parsed is Ok && slot_filled ==> (r matches Err(e) && e@ == "SoundFont already loaded"@),
        parsed matches Err(p) ==> (r matches Err(e) && e@ == "Failed to parse SoundFont: "@ + p@),
{
    match parsed {
        Ok(sf) => {
            if slot_filled {
                Err(String::from_str("SoundFont already loaded"))
            } else {
                Ok(sf)
            }
        },
        Err(e) => {
            let mut msg = String::from_str("Failed to parse SoundFont: ");
            msg.append(e.as_str());
            Err(msg)
        },
    }
}

} // verus!
