//! The pieces of values that serialization builds and deserialization takes apart.

pub mod de;
pub mod ser;
