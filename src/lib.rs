//! Dynamic range (DR) measurement of decoded audio.
//!
//! Samples stay raw integers throughout: block energies and peaks are exact,
//! and the only steps left to the caller are the final square root and
//! logarithm that turn the chosen blocks into a decibel figure.
pub mod blocks;
pub mod channel;
pub mod segment;
pub mod summary;
pub mod track;
