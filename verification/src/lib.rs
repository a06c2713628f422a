//! A streaming UTF-8 character decoder over a seekable byte source.
//!
//! The decoder reads its input in fixed 4-byte windows, extracts the maximal
//! valid prefix of each window as Unicode scalar values, and rewinds the
//! source whenever a window ends in the middle of a multi-byte encoding, so
//! that pulling characters one at a time is exactly equivalent to decoding
//! the whole input in a single step.

pub mod decode;
pub mod reader;
pub mod source;
