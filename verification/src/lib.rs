//! Derives a fixed 16-entry terminal color palette from sampled image pixels:
//! a 3x3x3-bucket quantizer followed by a palette adjuster, plus the
//! formatting helpers (hex strings, escape sequences, template substitution)
//! that consume the palette.
//!
//! All fractional amounts (darken/lighten/saturate factors) are expressed in
//! permille (0..=1000), and every channel computation is exact integer
//! arithmetic with truncating division.

pub mod color;
pub mod fmt_text;
pub mod haishoku;
pub mod generator;
pub mod parser;
pub mod sequences;
pub mod sorting;
