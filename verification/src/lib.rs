//! A YAML 1.2 parser and emitter.

pub mod api;
pub mod composer;
pub mod emitter;
pub mod error;
pub mod event;
pub mod floats;
pub mod meta;
pub mod node;
pub mod options;
pub mod parser;
pub mod reading;
pub mod resolution;
pub mod roundtrip;
pub mod scalar;
pub mod scanner;
pub mod serde_support;
pub mod text;
pub mod value;
pub mod writing;

pub use error::{Error, ErrorKind, Position, Span};
pub use meta::{Comments, Meta, ScalarStyle};
