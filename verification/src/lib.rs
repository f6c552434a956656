//! Codec for a line-oriented save-game container: a UTF-8 text header of
//! `key:=value` lines followed by an LZF-compressed binary payload.
//!
//! The library locates the header/payload boundary, decompresses the
//! payload within a size bound, checks a recompressed payload against the
//! edited bytes, and rewrites header fields so the declared sizes stay
//! consistent with the payload that follows them. Compression itself is
//! left to the caller: the LZF compressor in use can overrun its output
//! buffer on crafted input, so verified code only accepts its output after
//! decoding it back.

pub mod codec;
pub mod encoding;
pub mod error;
pub mod pipeline;
pub mod rewriter;
pub mod scanner;
