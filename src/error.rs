use vstd::prelude::*;

verus! {

/// The failures shared by the encoder and the decoder.
#[derive(Debug, PartialEq)]
pub enum CordError {
    /// A fault of an input or output medium.
    IOError(String),
    /// A construct that the format does not have (maps, floats, chars).
    NotSupported(&'static str),
    /// Malformed input: truncated, a bad tag, bad UTF-8, set order, trailing bytes.
    ValidationError(&'static str),
    /// A type adapter refused a value while encoding.
    SerializationError(String),
    /// A type adapter refused a value while decoding.
    DeserializationError(String),
}

/// The result of an encode or decode step.
pub type CordResult<T, E = CordError> = core::result::Result<T, E>;

} // verus!
