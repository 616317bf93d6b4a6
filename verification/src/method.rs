//! The closed set of recognized HTTP method tokens.

use vstd::prelude::*;
use vstd::string::StringSliceAdditionalSpecFns;

use crate::ascii::bytes_eq;

verus! {

/// The nine HTTP methods this codec recognizes.  The parse from the wire is
/// case-sensitive and exact.
#[derive(Debug, Clone, Copy, PartialEq, Eq, Structural)]
#[allow(clippy::upper_case_acronyms)]
pub enum Method {
    GET,
    HEAD,
    OPTIONS,
    POST,
    PUT,
    PATCH,
    DELETE,
    CONNECT,
    TRACE,
}

/// The wire token of a method, as bytes.
pub open spec fn method_bytes(m: Method) -> Seq<u8> {
    match m {
        Method::GET => "GET".spec_bytes(),
        Method::HEAD => "HEAD".spec_bytes(),
        Method::OPTIONS => "OPTIONS".spec_bytes(),
        Method::POST => "POST".spec_bytes(),
        Method::PUT => "PUT".spec_bytes(),
        Method::PATCH => "PATCH".spec_bytes(),
        Method::DELETE => "DELETE".spec_bytes(),
        Method::CONNECT => "CONNECT".spec_bytes(),
        Method::TRACE => "TRACE".spec_bytes(),
    }
}

/// The method whose token is `s`, if any.
pub open spec fn method_from(s: Seq<u8>) -> Option<Method> {
    if s == method_bytes(Method::GET) {
        Some(Method::GET)
    } else if s == method_bytes(Method::HEAD) {
        Some(Method::HEAD)
    } else if s == method_bytes(Method::OPTIONS) {
        Some(Method::OPTIONS)
    } else if s == method_bytes(Method::POST) {
        Some(Method::POST)
    } else if s == method_bytes(Method::PUT) {
        Some(Method::PUT)
    } else if s == method_bytes(Method::PATCH) {
        Some(Method::PATCH)
    } else if s == method_bytes(Method::DELETE) {
        Some(Method::DELETE)
    } else if s == method_bytes(Method::CONNECT) {
        Some(Method::CONNECT)
    } else if s == method_bytes(Method::TRACE) {
        Some(Method::TRACE)
    } else {
        None
    }
}

/// Every method token parses back to its own method, and its bytes are
/// uppercase letters.
pub proof fn lemma_method_token_facts(m: Method)
    ensures
        method_from(method_bytes(m)) == Some(m),
        method_bytes(m).len() > 0,
        forall|k: int|
            0 <= k < method_bytes(m).len() ==> 65 <= #[trigger] method_bytes(m)[k] <= 90,
{
    reveal_strlit("GET");
    reveal_strlit("HEAD");
    reveal_strlit("OPTIONS");
    reveal_strlit("POST");
    reveal_strlit("PUT");
    reveal_strlit("PATCH");
    reveal_strlit("DELETE");
    reveal_strlit("CONNECT");
    reveal_strlit("TRACE");
    broadcast use vstd::string::is_ascii_spec_bytes;

    assert(vstd::string::is_ascii("GET"));
    assert(vstd::string::is_ascii("HEAD"));
    assert(vstd::string::is_ascii("OPTIONS"));
    assert(vstd::string::is_ascii("POST"));
    assert(vstd::string::is_ascii("PUT"));
    assert(vstd::string::is_ascii("PATCH"));
    assert(vstd::string::is_ascii("DELETE"));
    assert(vstd::string::is_ascii("CONNECT"));
    assert(vstd::string::is_ascii("TRACE"));
    assert("GET".spec_bytes() =~= seq![71u8, 69, 84]);
    assert("HEAD".spec_bytes() =~= seq![72u8, 69, 65, 68]);
    assert("OPTIONS".spec_bytes() =~= seq![79u8, 80, 84, 73, 79, 78, 83]);
    assert("POST".spec_bytes() =~= seq![80u8, 79, 83, 84]);
    assert("PUT".spec_bytes() =~= seq![80u8, 85, 84]);
    assert("PATCH".spec_bytes() =~= seq![80u8, 65, 84, 67, 72]);
    assert("DELETE".spec_bytes() =~= seq![68u8, 69, 76, 69, 84, 69]);
    assert("CONNECT".spec_bytes() =~= seq![67u8, 79, 78, 78, 69, 67, 84]);
    assert("TRACE".spec_bytes() =~= seq![84u8, 82, 65, 67, 69]);
}

impl Method {
    /// Exact, case-sensitive parse of a method token.
    pub fn from_bytes(s: &[u8]) -> (r: Option<Method>)
        ensures
            r == method_from(s@),
    {
        if bytes_eq(s, "GET".as_bytes()) {
            Some(Method::GET)
        } else if bytes_eq(s, "HEAD".as_bytes()) {
            Some(Method::HEAD)
        } else if bytes_eq(s, "OPTIONS".as_bytes()) {
            Some(Method::OPTIONS)
        } else if bytes_eq(s, "POST".as_bytes()) {
            Some(Method::POST)
        } else if bytes_eq(s, "PUT".as_bytes()) {
            Some(Method::PUT)
        } else if bytes_eq(s, "PATCH".as_bytes()) {
            Some(Method::PATCH)
        } else if bytes_eq(s, "DELETE".as_bytes()) {
            Some(Method::DELETE)
        } else if bytes_eq(s, "CONNECT".as_bytes()) {
            Some(Method::CONNECT)
        } else if bytes_eq(s, "TRACE".as_bytes()) {
            Some(Method::TRACE)
        } else {
            None
        }
    }
}

} // verus!
