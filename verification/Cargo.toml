[package]
name = "sakuramml_player"
version = "0.1.0"
edition = "2021"
publish = false

[dependencies]
encoding_rs = "0.8"
sakuramml = "*"
rustysynth = "1"
once_cell = "1"
wasm-bindgen = "0.2"
rodio = "0.20"
wav_io = "*"
