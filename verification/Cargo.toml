[package]
name = "rs-sudoku"
version = "3.0.0"
edition = "2021"
publish = false

[dependencies]
rand = "0.8"
serde = { version = "1", features = ["derive"] }
serde_json = "1"
dirs = "5"
arboard = { version = "3", default-features = false }
rodio = { version = "0.22", default-features = false, features = ["playback", "wav", "vorbis", "mp3", "flac"] }
