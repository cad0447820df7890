//! Streaming line-oriented scanners.
//!
//! The scanners consume a byte-producing source incrementally, reassemble the
//! bytes into logical lines, and expose each line as a zero-copy view into an
//! internally managed buffer.  The main variant recognises two separators: a
//! true line break (the byte `\n`) and an escaped break (the two bytes `\`
//! `n`), and annotates every emitted slice with a running line number that
//! only true line breaks advance.

pub mod bytesbuf;
pub mod byteslines;
pub mod byteslines_ns;
pub mod ioread;
pub mod model;
pub mod readline;
