//! A real-time audio mixing engine.
//!
//! The library combines independently controllable sound sources into a
//! single interleaved 16-bit output stream.  Each sound carries its own
//! volume, effect transform and looping flag; the mixer keeps its sounds
//! partitioned into a playing prefix and an idle suffix and mixes the
//! playing ones into a caller-supplied buffer with saturating addition.

pub mod sample;
pub mod source;
pub mod mixer;
