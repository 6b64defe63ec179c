//! Turns a video's decoded frames into terminal ASCII animation: a
//! luminance-to-glyph mapper, a whitespace-tokenized config format, stable
//! ordering of numbered frame files, a fixed-interval playback scheduler,
//! and the cache-reset discipline that keeps runs from mixing.
pub mod cache;
pub mod config;
pub mod digits;
pub mod extract;
pub mod glyph;
pub mod order;
pub mod schedule;
pub mod text;
