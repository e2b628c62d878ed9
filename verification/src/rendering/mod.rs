//! Rendering of the exported file.

pub mod audio_export;
