//! Bash's own serialisation format: parse and emit the right-hand side of a
//! bash assignment.
//!
//! Three levels, each a public entry point: the shapes bash prints (one call
//! each), values of any depth under either codec (`BashVal`, `Schema`,
//! `BashCodec`), and the word lexer on its own (`Cursor`, `parse_with`).

mod codec;
mod codec_laws;
mod emit;
mod error;
mod escape_laws;
mod grammar;
mod index_map;
mod laws;
mod parser;
pub mod primitives;
mod quoting;
mod raw;
mod text;
mod typed;

pub use codec::{BashCodec, BashVal, CodecParseError, Fault, LinkedArr, QuotedNest, Schema, Tree};
pub use emit::{emit_array, emit_assoc, emit_indexed, emit_q_words, emit_scalar};
pub use error::ParseError;
pub use parser::{parse_array, parse_assoc, parse_indexed, parse_q_words, parse_scalar};
pub use quoting::{parse_with, Cursor};
pub use raw::{BashRaw, ConversionError, RawView};
pub use typed::{parse_typed_value, BashType, BashValue};
