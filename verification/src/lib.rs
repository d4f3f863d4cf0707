//! Partial JSON fixer: completes a JSON text that was cut off, for example
//! while it streams in.
//!
//! It is lenient, and accepts some erroneous JSON too: `{key: "value"}`
//! is read as well.
//!
//! - [`fix_json`] works on the text: it scans it, trims an incomplete
//!   trailing token and closes whatever is still open.
//! - [`fix_json_parse`] reads the text into a [`JsonValue`], which
//!   `to_string` writes back as text.
use vstd::prelude::*;

pub mod chars;
pub mod close_proof;
pub mod complete_proof;
pub mod fixer;
pub mod grammar;
pub mod laws;
pub mod number;
pub mod offsets;
pub mod parser;
pub mod prefix_parse_proof;
pub mod repair_proof;
pub mod roundtrip_proof;
pub mod run_lemmas;
pub mod scan_proof;
pub mod tokenizer;
pub mod value;

pub use fixer::fix_json;
pub use parser::fix_json_parse;
pub use tokenizer::{JsonToken, JsonTokenKind, Span};
pub use value::{JsonArray, JsonError, JsonObject, JsonUnit, JsonValue};

verus! {

} // verus!
