//! A compact, self-describing binary encoding for a small symbolic-expression
//! language (nested lists of integers, floats, strings, symbols, booleans and
//! nil), together with structural navigation, containment testing, a
//! wildcard/capture pattern matcher, and a bounded index-key extractor for
//! inverted-index support.
//!
//! Values are kept as immutable byte buffers in a tagged wire format; all
//! operations work directly on encoded byte ranges. The mathematical model of
//! a buffer is a [`model::Val`], and every operation's contract is stated over
//! that model.

pub mod model;
pub mod varint;
pub mod codec;
pub mod sexp;
pub mod parse;
pub mod render;
pub mod decode;
pub mod hashing;
pub mod matching;
pub mod keys;
pub mod gin;
pub mod laws;
pub mod roundtrip;
