//! The closed registry of HTTP status codes and their reason phrases.

use vstd::prelude::*;
use vstd::string::StringSliceAdditionalSpecFns;

use crate::ascii::bytes_eq;
use crate::error::HttpError;

verus! {

/// A status code: the numeric code paired with its reason phrase
/// (e.g. `404` and `Not Found`).  Values built by [`StatusCode::from_int`]
/// always carry the registry phrase for their code.
#[derive(Debug, Clone, Copy)]
pub struct StatusCode(pub u16, pub &'static str);

/// Whether `c` is in the status code registry.
pub open spec fn is_registered(c: int) -> bool {
    c == 100 || c == 101 || c == 200 || c == 201 || c == 202 || c == 203 || c == 204 || c == 205
        || c == 206 || c == 300 || c == 301 || c == 302 || c == 303 || c == 304 || c == 305
        || c == 307 || c == 308 || c == 400 || c == 401 || c == 402 || c == 403 || c == 404
        || c == 405 || c == 406 || c == 407 || c == 408 || c == 409 || c == 410 || c == 411
        || c == 412 || c == 413 || c == 414 || c == 415 || c == 416 || c == 417 || c == 421
        || c == 422 || c == 426 || c == 500 || c == 501 || c == 502 || c == 503 || c == 504
        || c == 505
}

/// The registry reason phrase for `c`, as characters; empty for
/// unregistered codes.
pub open spec fn reason_chars(c: int) -> Seq<char> {
    if c == 100 {
        "Continue"@
    } else if c == 101 {
        "Switching Protocols"@
    } else if c == 200 {
        "OK"@
    } else if c == 201 {
        "Created"@
    } else if c == 202 {
        "Accepted"@
    } else if c == 203 {
        "Non-Authoritative Information"@
    } else if c == 204 {
        "No Content"@
    } else if c == 205 {
        "Reset Content"@
    } else if c == 206 {
        "Partial Content"@
    } else if c == 300 {
        "Multiple Choices"@
    } else if c == 301 {
        "Moved Permanently"@
    } else if c == 302 {
        "Found"@
    } else if c == 303 {
        "See Other"@
    } else if c == 304 {
        "Not Modified"@
    } else if c == 305 {
        "Use Proxy"@
    } else if c == 307 {
        "Temporary Redirect"@
    } else if c == 308 {
        "Permanent Redirect"@
    } else if c == 400 {
        "Bad Request"@
    } else if c == 401 {
        "Unauthorized"@
    } else if c == 402 {
        "Payment Required"@
    } else if c == 403 {
        "Forbidden"@
    } else if c == 404 {
        "Not Found"@
    } else if c == 405 {
        "Method Not Allowed"@
    } else if c == 406 {
        "Not Acceptable"@
    } else if c == 407 {
        "Proxy Authentication Required"@
    } else if c == 408 {
        "Request Timeout"@
    } else if c == 409 {
        "Conflict"@
    } else if c == 410 {
        "Gone"@
    } else if c == 411 {
        "Length Required"@
    } else if c == 412 {
        "Precondition Failed"@
    } else if c == 413 {
        "Content Too Large"@
    } else if c == 414 {
        "URI Too Long"@
    } else if c == 415 {
        "Unsupported Media Type"@
    } else if c == 416 {
        "Range Not Satisfiable"@
    } else if c == 417 {
        "Expectation Failed"@
    } else if c == 421 {
        "Misdirected Request"@
    } else if c == 422 {
        "Unprocessable Content"@
    } else if c == 426 {
        "Upgrade Required"@
    } else if c == 500 {
        "Internal Server Error"@
    } else if c == 501 {
        "Not Implemented"@
    } else if c == 502 {
        "Bad Gateway"@
    } else if c == 503 {
        "Service Unavailable"@
    } else if c == 504 {
        "Gateway Timeout"@
    } else if c == 505 {
        "HTTP Version Not Supported"@
    } else {
        Seq::empty()
    }
}

impl StatusCode {
    /// Look `code` up in the registry.  Succeeds exactly on registered
    /// codes and returns the registry entry for the code.
    pub fn from_int(code: usize) -> (r: Result<StatusCode, HttpError>)
        ensures
            r is Ok <==> is_registered(code as int),
            r matches Ok(sc) ==> sc.0 == code && sc.1@ == reason_chars(code as int),
            r matches Err(e) ==> e == HttpError::UnknownStatusCode,
    {
        match code {
            100 => Ok(StatusCode(100, "Continue")),
            101 => Ok(StatusCode(101, "Switching Protocols")),
            200 => Ok(StatusCode(200, "OK")),
            201 => Ok(StatusCode(201, "Created")),
            202 => Ok(StatusCode(202, "Accepted")),
            203 => Ok(StatusCode(203, "Non-Authoritative Information")),
            204 => Ok(StatusCode(204, "No Content")),
            205 => Ok(StatusCode(205, "Reset Content")),
            206 => Ok(StatusCode(206, "Partial Content")),
            300 => Ok(StatusCode(300, "Multiple Choices")),
            301 => Ok(StatusCode(301, "Moved Permanently")),
            302 => Ok(StatusCode(302, "Found")),
            303 => Ok(StatusCode(303, "See Other")),
            304 => Ok(StatusCode(304, "Not Modified")),
            305 => Ok(StatusCode(305, "Use Proxy")),
            307 => Ok(StatusCode(307, "Temporary Redirect")),
            308 => Ok(StatusCode(308, "Permanent Redirect")),
            400 => Ok(StatusCode(400, "Bad Request")),
            401 => Ok(StatusCode(401, "Unauthorized")),
            402 => Ok(StatusCode(402, "Payment Required")),
            403 => Ok(StatusCode(403, "Forbidden")),
            404 => Ok(StatusCode(404, "Not Found")),
            405 => Ok(StatusCode(405, "Method Not Allowed")),
            406 => Ok(StatusCode(406, "Not Acceptable")),
            407 => Ok(StatusCode(407, "Proxy Authentication Required")),
            408 => Ok(StatusCode(408, "Request Timeout")),
            409 => Ok(StatusCode(409, "Conflict")),
            410 => Ok(StatusCode(410, "Gone")),
            411 => Ok(StatusCode(411, "Length Required")),
            412 => Ok(StatusCode(412, "Precondition Failed")),
            413 => Ok(StatusCode(413, "Content Too Large")),
            414 => Ok(StatusCode(414, "URI Too Long")),
            415 => Ok(StatusCode(415, "Unsupported Media Type")),
            416 => Ok(StatusCode(416, "Range Not Satisfiable")),
            417 => Ok(StatusCode(417, "Expectation Failed")),
            421 => Ok(StatusCode(421, "Misdirected Request")),
            422 => Ok(StatusCode(422, "Unprocessable Content")),
            426 => Ok(StatusCode(426, "Upgrade Required")),
            500 => Ok(StatusCode(500, "Internal Server Error")),
            501 => Ok(StatusCode(501, "Not Implemented")),
            502 => Ok(StatusCode(502, "Bad Gateway")),
            503 => Ok(StatusCode(503, "Service Unavailable")),
            504 => Ok(StatusCode(504, "Gateway Timeout")),
            505 => Ok(StatusCode(505, "HTTP Version Not Supported")),
            _ => Err(HttpError::UnknownStatusCode),
        }
    }
}

impl PartialEq for StatusCode {
    /// Structural equality over the code and the reason phrase bytes.
    fn eq(&self, other: &StatusCode) -> (r: bool) {
        self.0 == other.0 && bytes_eq(self.1.as_bytes(), other.1.as_bytes())
    }
}

impl vstd::std_specs::cmp::PartialEqSpecImpl for StatusCode {
    open spec fn obeys_eq_spec() -> bool {
        true
    }

    open spec fn eq_spec(&self, other: &StatusCode) -> bool {
        self.0 == other.0 && self.1.spec_bytes() == other.1.spec_bytes()
    }
}

} // verus!
