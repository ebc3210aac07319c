use sakuramml_player::{encoding_to_utf8, CompileResult};

#[test]
fn utf8_is_kept() {
    assert_eq!(encoding_to_utf8("ドレミ abc".as_bytes()), "ドレミ abc");
}

#[test]
fn shift_jis_is_decoded() {
    // "ド" "レ" "ミ" in Shift_JIS
    let sjis = [0x83u8, 0x68, 0x83, 0x8C, 0x83, 0x7E];
    assert_eq!(encoding_to_utf8(&sjis), "ドレミ");
}

#[test]
fn compiled_mml_parses() {
    let res = sakuramml::compile("cde", sakuramml::SAKURA_DEBUG_NONE);
    let r = CompileResult::new(res.bin.clone(), res.log.clone());
    assert_eq!(r.bin(), res.bin);
    assert_eq!(r.log(), res.log);
    let bin = r.bin();
    assert_eq!(&bin[0..4], b"MThd");
    let m = sakuramml_player::midi_parser::parse(&bin).expect("the compiled MIDI parses");
    assert_eq!(m.notes.len(), 3);
}

#[test]
fn mml_bytes_in_shift_jis_decode_to_their_text() {
    // "cde" with a Shift_JIS comment: the bytes are not valid UTF-8
    let mut sjis = b"cde // ".to_vec();
    sjis.extend_from_slice(&[0x83, 0x68, 0x83, 0x8C, 0x83, 0x7E]);
    assert_eq!(encoding_to_utf8(&sjis), "cde // ドレミ");
}

#[test]
fn utf8_text_reads_back_as_itself() {
    for s in ["", "abc", "ドレミ", "歌詞 🎵 lyric", "\u{7f}\u{80}\u{10ffff}"] {
        assert_eq!(encoding_to_utf8(s.as_bytes()), s);
    }
    // not UTF-8: read as Shift_JIS
    assert_eq!(encoding_to_utf8(&[0x82, 0xA0]), "あ");
}
