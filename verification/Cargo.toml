[package]
name = "fpvflow_core"
version = "0.1.0"
edition = "2021"
publish = false

[dependencies]
symphonia = { version = "=0.5.5", default-features = false, features = ["aac", "isomp4", "mp3", "flac", "wav", "pcm"] }
rustfft = "=6.4.1"
nalgebra = "=0.35.0"
serde = { version = "=1.0.229", features = ["derive"] }
thiserror = "=2.0.21"
log = "=0.4.35"
ffmpeg-next = "=9.0.0"
qmetaobject = "=0.2.10"
