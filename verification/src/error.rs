//! Error type shared by the whole library.

use vstd::prelude::*;

verus! {

/// Errors reported by image operations.
#[derive(Debug)]
pub enum Error {
    /// A pixel depth other than 1, 2, 4, 8, 16 or 32 bits.
    InvalidDepth(u32),
    /// An image dimension that is zero (or too large to be allocated).
    InvalidDimension { width: u32, height: u32 },
    /// An index outside `0..len`.
    IndexOutOfBounds { index: usize, len: usize },
    /// Two images (or an image and a request) of different depths.
    IncompatibleDepths(u32, u32),
    /// Two images of different sizes.
    DimensionMismatch { expected: (u32, u32), actual: (u32, u32) },
    /// An operation that is not available at this depth.
    UnsupportedDepth(u32),
    /// An argument outside its valid range.
    InvalidParameter(String),
    /// A colormap on an image whose depth does not allow one.
    ColormapNotAllowed(u32),
    /// Malformed serialized data.
    DecodeError(String),
    /// An operation that does not support this kind of input.
    NotSupported(String),
    /// A required input is missing.
    NullInput(String),
    /// Reading or writing failed.
    Io(String),
}

/// Result type used throughout the library.
pub type Result<T> = std::result::Result<T, Error>;

/// Builds an [`Error::InvalidParameter`] from a message.
pub fn invalid_param(msg: &str) -> (e: Error)
    ensures
        e is InvalidParameter,
{
    Error::InvalidParameter(msg.to_owned())
}

/// Builds an [`Error::DecodeError`] from a message.
pub fn decode_error(msg: &str) -> (e: Error)
    ensures
        e is DecodeError,
{
    Error::DecodeError(msg.to_owned())
}

/// Builds an [`Error::NullInput`] from a message.
pub fn null_input(msg: &str) -> (e: Error)
    ensures
        e is NullInput,
{
    Error::NullInput(msg.to_owned())
}

/// Builds an [`Error::NotSupported`] from a message.
pub fn not_supported(msg: &str) -> (e: Error)
    ensures
        e is NotSupported,
{
    Error::NotSupported(msg.to_owned())
}

} // verus!
