//! Color processing: conversion LUTs and the adjustments applied after them.
//!
//! Everything here runs on the stabilized frame, in float, before the single
//! quantization to the output bit depth: the conversion LUT first, then the
//! per-pixel adjustments, then the spatial effects.

pub mod adjustments;
pub mod agreement;
pub mod amounts;
pub mod bounded;
pub mod controls;
pub mod drift;
pub mod hues;
pub mod laws;
pub mod light;
pub mod lut;
pub mod middle;
pub mod scale;
pub mod tones;
