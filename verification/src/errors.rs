//! Error types of the codec layer. All of them propagate to the immediate
//! caller; none is retried or downgraded to a default value.

use vstd::prelude::*;

verus! {

/// Raised when a bounded integer is constructed from a value outside the
/// permitted range.
#[derive(Debug, Clone)]
pub struct RangeError {}

/// Raised when a value cannot be converted to its wire text form; carries a
/// diagnostic message.
#[derive(Debug, Clone)]
pub struct SerializationError {
    pub message: String,
}

impl SerializationError {
    /// The diagnostic message carried by this error.
    pub fn message(&self) -> (r: &str)
        ensures
            r@ == self.message@,
    {
        self.message.as_str()
    }
}

/// Raised when wire text cannot be parsed into the target shape; carries the
/// underlying cause.
#[derive(Debug, Clone)]
pub struct DeserializationError {
    pub message: String,
}

impl DeserializationError {
    /// The diagnostic message carried by this error.
    pub fn message(&self) -> (r: &str)
        ensures
            r@ == self.message@,
    {
        self.message.as_str()
    }
}

/// Raised by the request encoder when a sub-field's encoding fails; wraps the
/// originating error and aborts production of a wire request.
#[derive(Debug, Clone)]
pub enum EncodingError {
    Serialization(SerializationError),
}

} // verus!
