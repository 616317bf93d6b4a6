use http_codec::error::HttpError;
use http_codec::status_code::StatusCode;

#[test]
fn from_int() {
    assert_eq!(StatusCode(100, "Continue"), StatusCode::from_int(100).unwrap());
    assert_eq!(
        StatusCode(101, "Switching Protocols"),
        StatusCode::from_int(101).unwrap()
    );
    assert_eq!(StatusCode(200, "OK"), StatusCode::from_int(200).unwrap());
    assert_eq!(StatusCode(201, "Created"), StatusCode::from_int(201).unwrap());
    assert_eq!(StatusCode(202, "Accepted"), StatusCode::from_int(202).unwrap());
    assert_eq!(
        StatusCode(203, "Non-Authoritative Information"),
        StatusCode::from_int(203).unwrap()
    );
    assert_eq!(StatusCode(204, "No Content"), StatusCode::from_int(204).unwrap());
    assert_eq!(
        StatusCode(205, "Reset Content"),
        StatusCode::from_int(205).unwrap()
    );
    assert_eq!(
        StatusCode(206, "Partial Content"),
        StatusCode::from_int(206).unwrap()
    );
    assert_eq!(
        StatusCode(300, "Multiple Choices"),
        StatusCode::from_int(300).unwrap()
    );
    assert_eq!(
        StatusCode(301, "Moved Permanently"),
        StatusCode::from_int(301).unwrap()
    );
    assert_eq!(StatusCode(302, "Found"), StatusCode::from_int(302).unwrap());
    assert_eq!(StatusCode(303, "See Other"), StatusCode::from_int(303).unwrap());
    assert_eq!(
        StatusCode(304, "Not Modified"),
        StatusCode::from_int(304).unwrap()
    );
    assert_eq!(StatusCode(305, "Use Proxy"), StatusCode::from_int(305).unwrap());
    assert_eq!(
        StatusCode(307, "Temporary Redirect"),
        StatusCode::from_int(307).unwrap()
    );
    assert_eq!(
        StatusCode(308, "Permanent Redirect"),
        StatusCode::from_int(308).unwrap()
    );
    assert_eq!(
        StatusCode(400, "Bad Request"),
        StatusCode::from_int(400).unwrap()
    );
    assert_eq!(
        StatusCode(401, "Unauthorized"),
        StatusCode::from_int(401).unwrap()
    );
    assert_eq!(
        StatusCode(402, "Payment Required"),
        StatusCode::from_int(402).unwrap()
    );
    assert_eq!(StatusCode(403, "Forbidden"), StatusCode::from_int(403).unwrap());
    assert_eq!(StatusCode(404, "Not Found"), StatusCode::from_int(404).unwrap());
    assert_eq!(
        StatusCode(405, "Method Not Allowed"),
        StatusCode::from_int(405).unwrap()
    );
    assert_eq!(
        StatusCode(406, "Not Acceptable"),
        StatusCode::from_int(406).unwrap()
    );
    assert_eq!(
        StatusCode(407, "Proxy Authentication Required"),
        StatusCode::from_int(407).unwrap()
    );
    assert_eq!(
        StatusCode(408, "Request Timeout"),
        StatusCode::from_int(408).unwrap()
    );
    assert_eq!(StatusCode(409, "Conflict"), StatusCode::from_int(409).unwrap());
    assert_eq!(StatusCode(410, "Gone"), StatusCode::from_int(410).unwrap());
    assert_eq!(
        StatusCode(411, "Length Required"),
        StatusCode::from_int(411).unwrap()
    );
    assert_eq!(
        StatusCode(412, "Precondition Failed"),
        StatusCode::from_int(412).unwrap()
    );
    assert_eq!(
        StatusCode(413, "Content Too Large"),
        StatusCode::from_int(413).unwrap()
    );
    assert_eq!(
        StatusCode(414, "URI Too Long"),
        StatusCode::from_int(414).unwrap()
    );
    assert_eq!(
        StatusCode(415, "Unsupported Media Type"),
        StatusCode::from_int(415).unwrap()
    );
    assert_eq!(
        StatusCode(416, "Range Not Satisfiable"),
        StatusCode::from_int(416).unwrap()
    );
    assert_eq!(
        StatusCode(417, "Expectation Failed"),
        StatusCode::from_int(417).unwrap()
    );
    assert_eq!(
        StatusCode(421, "Misdirected Request"),
        StatusCode::from_int(421).unwrap()
    );
    assert_eq!(
        StatusCode(422, "Unprocessable Content"),
        StatusCode::from_int(422).unwrap()
    );
    assert_eq!(
        StatusCode(426, "Upgrade Required"),
        StatusCode::from_int(426).unwrap()
    );
    assert_eq!(
        StatusCode(500, "Internal Server Error"),
        StatusCode::from_int(500).unwrap()
    );
    assert_eq!(
        StatusCode(501, "Not Implemented"),
        StatusCode::from_int(501).unwrap()
    );
    assert_eq!(
        StatusCode(502, "Bad Gateway"),
        StatusCode::from_int(502).unwrap()
    );
    assert_eq!(
        StatusCode(503, "Service Unavailable"),
        StatusCode::from_int(503).unwrap()
    );
    assert_eq!(
        StatusCode(504, "Gateway Timeout"),
        StatusCode::from_int(504).unwrap()
    );
    assert_eq!(
        StatusCode(505, "HTTP Version Not Supported"),
        StatusCode::from_int(505).unwrap()
    );
}

#[test]
fn from_int_unknown_code() {
    assert_eq!(Err(HttpError::UnknownStatusCode), StatusCode::from_int(299));
    assert_eq!(Err(HttpError::UnknownStatusCode), StatusCode::from_int(0));
    assert_eq!(Err(HttpError::UnknownStatusCode), StatusCode::from_int(306));
    assert_eq!(Err(HttpError::UnknownStatusCode), StatusCode::from_int(600));
    assert!(StatusCode::from_int(200).is_ok());
}
