[package]
name = "audio_transcription"
version = "0.1.0"
edition = "2021"
publish = false

[dependencies]
cpal = "0.15"
reqwest = { version = "0.12", default-features = false, features = ["blocking", "multipart", "rustls-tls"] }
serde = { version = "1", features = ["derive"] }
serde_json = "1"
