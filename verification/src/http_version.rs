//! The closed set of recognized HTTP version tokens.

use vstd::prelude::*;
use vstd::string::StringSliceAdditionalSpecFns;

use crate::ascii::bytes_eq;

verus! {

/// The three HTTP version tokens this codec recognizes.
#[derive(Debug, Clone, Copy, PartialEq, Eq, Structural)]
pub enum HttpVersion {
    Http1_0,
    Http1_1,
    Http2_0,
}

/// The wire token of a version, as bytes.
pub open spec fn version_bytes(v: HttpVersion) -> Seq<u8> {
    match v {
        HttpVersion::Http1_0 => "HTTP/1.0".spec_bytes(),
        HttpVersion::Http1_1 => "HTTP/1.1".spec_bytes(),
        HttpVersion::Http2_0 => "HTTP/2.0".spec_bytes(),
    }
}

/// The version whose token is `s`, if any.
pub open spec fn version_from(s: Seq<u8>) -> Option<HttpVersion> {
    if s == version_bytes(HttpVersion::Http1_0) {
        Some(HttpVersion::Http1_0)
    } else if s == version_bytes(HttpVersion::Http1_1) {
        Some(HttpVersion::Http1_1)
    } else if s == version_bytes(HttpVersion::Http2_0) {
        Some(HttpVersion::Http2_0)
    } else {
        None
    }
}

/// Every version token parses back to its own version, and its bytes lie
/// between `.` and `T`: in particular none is whitespace.
pub proof fn lemma_version_token_facts(v: HttpVersion)
    ensures
        version_from(version_bytes(v)) == Some(v),
        version_bytes(v).len() > 0,
        forall|k: int|
            0 <= k < version_bytes(v).len() ==> 46 <= #[trigger] version_bytes(v)[k] <= 84,
{
    reveal_strlit("HTTP/1.0");
    reveal_strlit("HTTP/1.1");
    reveal_strlit("HTTP/2.0");
    broadcast use vstd::string::is_ascii_spec_bytes;

    assert(vstd::string::is_ascii("HTTP/1.0"));
    assert(vstd::string::is_ascii("HTTP/1.1"));
    assert(vstd::string::is_ascii("HTTP/2.0"));
    assert("HTTP/1.0".spec_bytes() =~= seq![72u8, 84, 84, 80, 47, 49, 46, 48]);
    assert("HTTP/1.1".spec_bytes() =~= seq![72u8, 84, 84, 80, 47, 49, 46, 49]);
    assert("HTTP/2.0".spec_bytes() =~= seq![72u8, 84, 84, 80, 47, 50, 46, 48]);
}

impl HttpVersion {
    /// Exact parse of a version token.
    pub fn from_bytes(s: &[u8]) -> (r: Option<HttpVersion>)
        ensures
            r == version_from(s@),
    {
        if bytes_eq(s, "HTTP/1.0".as_bytes()) {
            Some(HttpVersion::Http1_0)
        } else if bytes_eq(s, "HTTP/1.1".as_bytes()) {
            Some(HttpVersion::Http1_1)
        } else if bytes_eq(s, "HTTP/2.0".as_bytes()) {
            Some(HttpVersion::Http2_0)
        } else {
            None
        }
    }

    /// The literal token used on the wire for this version.
    pub fn token(&self) -> (r: &'static str)
        ensures
            r.spec_bytes() == version_bytes(*self),
    {
        match self {
            HttpVersion::Http1_0 => "HTTP/1.0",
            HttpVersion::Http1_1 => "HTTP/1.1",
            HttpVersion::Http2_0 => "HTTP/2.0",
        }
    }
}

} // verus!
