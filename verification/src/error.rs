//! The error kinds the codec can raise.

use vstd::prelude::*;

verus! {

/// Everything that can go wrong while decoding a request or looking up a
/// status code.  Encoding to an in-memory buffer cannot fail.
#[derive(Debug, Clone, Copy, PartialEq, Eq, Structural)]
pub enum HttpError {
    /// The request line has fewer than three tokens, or a trailing
    /// non-empty token after the version.
    MalformedRequestLine,
    /// The method token is not one of the nine recognized methods.
    UnknownMethod,
    /// The version token is not one of the three recognized versions.
    UnknownVersion,
    /// A `content-length` header is present but its value is not a decimal
    /// integer that fits in `usize`.
    InvalidContentLength,
    /// The input ended before the request line, the header terminator, or
    /// the declared body length.
    UnexpectedEof,
    /// The integer is not in the status code registry.
    UnknownStatusCode,
}

} // verus!
