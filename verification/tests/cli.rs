use sakuramml_player::cli::{cli_chunk_frames, meta_text_type_name, CLI_MIN_CHUNK_FRAMES};

#[test]
fn test_cli_chunk_frames_scales_with_sample_rate() {
    assert_eq!(cli_chunk_frames(44_100), 22_050);
    assert_eq!(cli_chunk_frames(48_000), 24_000);
    assert_eq!(cli_chunk_frames(2_000), CLI_MIN_CHUNK_FRAMES);
}

#[test]
fn meta_text_names() {
    assert_eq!(meta_text_type_name(0x01), "Text");
    assert_eq!(meta_text_type_name(0x05), "Lyric");
    assert_eq!(meta_text_type_name(0x07), "CuePoint");
    assert_eq!(meta_text_type_name(0x00), "Unknown");
    assert_eq!(meta_text_type_name(0x7F), "Unknown");
}
