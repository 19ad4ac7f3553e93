//! Turning loosely formatted time spans into a plan of clip extractions.
//!
//! The library parses textual timestamps (`SS`, `SS.mmm`, `MM:SS.mmm`,
//! `HH:MM:SS.mmm`) and spans (`start-end`), orders them, and derives the
//! output filenames and the seek/duration arguments handed to the external
//! extraction tool. All text is handled as bytes.

pub mod collect;
pub mod digits;
pub mod driver;
pub mod errors;
pub mod naming;
pub mod span;
pub mod timestamp;
