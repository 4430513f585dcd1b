//! A single-instrument order book: orders parsed from text lines, and a
//! matching pass that crosses resting buy interest against resting sell
//! interest.

pub mod matching;
pub mod order;
pub mod book;
pub mod input;
pub mod text;
