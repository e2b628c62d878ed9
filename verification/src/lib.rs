//! External audio and color processing for stabilized flight footage.

pub mod audio;
pub mod color;
pub mod columns;
pub mod ieee;
pub mod rendering;
pub mod text;
pub mod timeline;
