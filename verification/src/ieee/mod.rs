//! Floating-point values as bit patterns, with exactly rounded arithmetic.

pub mod big;
pub mod decimal;
pub mod double;
pub mod grid;
pub mod laws;
pub mod number;
pub mod root;
pub mod single;
