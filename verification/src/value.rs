//! The library's model of one wire value in a server response.
//!
//! A response row is a tree of these values: integers, strings, arrays.
//! Binary-safe strings arrive as text (the surrounding program converts
//! raw bytes to text before handing a value to the library); anything
//! the decoder has no use for is carried as `Other` and rejected by
//! every coercion.

use vstd::prelude::*;

verus! {

/// One value of a server response, as the decoder reads it.
pub enum RespValue {
    /// A nil response.
    Nil,
    /// An integer response.
    Int(i64),
    /// A binary-safe string response, already converted to text.
    Data(String),
    /// An array of nested values.
    Bulk(Vec<RespValue>),
    /// A simple (status) string response.
    Status(String),
    /// The status response "OK".
    Okay,
    /// Any response shape the decoder does not accept.
    Other,
}

/// Why one row failed to decode.
#[derive(PartialEq, Eq, Structural, Clone, Copy, Debug)]
pub enum DecodeError {
    /// The row has fewer fields than the record needs.
    MissingField,
    /// A field cannot be coerced to its expected type.
    TypeMismatch,
}

} // verus!
