use sakuramml_player::soundfont::load_soundfont;
use std::io::Cursor;

#[test]
fn bytes_that_are_not_a_soundfont_are_refused() {
    let parsed = rustysynth::SoundFont::new(&mut Cursor::new(&b"not a soundfont"[..])).map_err(|e| e.to_string());
    let reason = parsed.as_ref().err().cloned().expect("refused by the parser");
    let err = load_soundfont(false, parsed).err().expect("refused");
    assert_eq!(err, format!("Failed to parse SoundFont: {}", reason));
    // a parse error comes first, even when the slot is filled
    let err = load_soundfont(true, Err("bad".to_string())).err().expect("refused");
    assert_eq!(err, "Failed to parse SoundFont: bad");
}
