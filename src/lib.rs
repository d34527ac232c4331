//! Stroke records of a cricket game's configuration blob: locating them through
//! a name/offset manifest, parsing their attribute grammar, and projecting their
//! timings onto a circular pitch.
pub mod data;
pub mod geometry;
pub mod manifest;
pub mod strokes;
pub mod viewer;
