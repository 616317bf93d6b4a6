//! A minimal, fully verified server-side HTTP/1.x message codec.
//!
//! The crate parses an inbound request from a byte buffer into a structured
//! [`request::Request`] and serializes an outbound [`response::Response`]
//! back to bytes.  All parsing and serialization logic carries contracts
//! that pin the result down exactly; the surrounding I/O (sockets,
//! buffering) is left to the caller.

pub mod ascii;
pub mod error;
pub mod header_map;
pub mod http_version;
pub mod method;
pub mod request;
pub mod response;
pub mod status_code;
