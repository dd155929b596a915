//! Binary-serialization primitives for a compact positional wire format:
//! a variable-length integer codec and a bit-granular buffer.

pub mod bitbuf;
pub mod varint;
