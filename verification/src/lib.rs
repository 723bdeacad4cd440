//! A bidirectional codec for a compact, indentation-structured text notation
//! covering the same value space as JSON: null, booleans, 64-bit integers,
//! floating-point numbers (carried by their textual form), strings, ordered
//! lists and ordered key/value maps.
//!
//! The crate offers three verified components:
//! - the parser ([`parse`]), which turns notation text into a [`ToonValue`];
//! - the encoder ([`encode`]), which renders a [`ToonValue`] back as text;
//! - the container bridge ([`collection_to_value`], [`value_to_collection`]),
//!   which converts between [`ToonValue`] and an ordered key/value collection
//!   as a host runtime exposes it.
//!
//! Each entry point's contract pins its result to a specification function of
//! the input alone, and [`laws`] proves the round-trip law over them.

pub mod bridge;
pub mod encoder;
pub mod escape;
pub mod laws;
pub mod num;
pub mod parser;
pub mod scalar;
pub mod text;
pub mod value;

pub use bridge::{
    clamped_capacity, collection_to_value, value_to_collection, BridgeError, HostKey, HostValue,
};
pub use encoder::encode;
pub use parser::{parse, ParseError};
pub use scalar::{parse_value, value_to_string};
pub use value::{ToonValue, Val, DEPTH_LIMIT};
