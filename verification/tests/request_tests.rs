use http_codec::error::HttpError;
use http_codec::http_version::HttpVersion;
use http_codec::method::Method;
use http_codec::request::Request;

#[test]
fn sample_request() {
    let raw_request = "POST /foo HTTP/1.1\r\n\
            Host: localhost\r\n\
            x-my-header: foo; bar\r\n\
            x-my-header: baz\r\n\
            Content-Length: 44\r\n\
            \r\n\
            The quick brown fox jumped over the lazy dog\n\
        "
    .as_bytes();

    let parsed_request = Request::from_bytes(raw_request).unwrap();

    assert_eq!(Method::POST, parsed_request.method);
    assert_eq!(b"/foo".to_vec(), parsed_request.raw_target);
    assert_eq!(HttpVersion::Http1_1, parsed_request.http_version);

    assert_eq!(
        &vec![b"localhost".to_vec()],
        parsed_request.headers.get(b"host").unwrap()
    );

    assert_eq!(
        &vec![b"foo".to_vec(), b"bar".to_vec(), b"baz".to_vec()],
        parsed_request.headers.get(b"x-my-header").unwrap()
    );

    // The fixture declares Content-Length 44 and supplies 45 bytes; the
    // decoder reads exactly 44 and leaves the trailing newline unread.
    assert_eq!(
        b"The quick brown fox jumped over the lazy dog".to_vec(),
        parsed_request.body
    );
}

#[test]
fn all_method_tokens_parse() {
    let cases: Vec<(&str, Method)> = vec![
        ("GET", Method::GET),
        ("HEAD", Method::HEAD),
        ("OPTIONS", Method::OPTIONS),
        ("POST", Method::POST),
        ("PUT", Method::PUT),
        ("PATCH", Method::PATCH),
        ("DELETE", Method::DELETE),
        ("CONNECT", Method::CONNECT),
        ("TRACE", Method::TRACE),
    ];
    for (token, method) in cases {
        let raw = format!("{} / HTTP/1.1\r\n\r\n", token);
        let r = Request::from_bytes(raw.as_bytes()).unwrap();
        assert_eq!(method, r.method);
    }
}

#[test]
fn all_version_tokens_parse() {
    let cases: Vec<(&str, HttpVersion)> = vec![
        ("HTTP/1.0", HttpVersion::Http1_0),
        ("HTTP/1.1", HttpVersion::Http1_1),
        ("HTTP/2.0", HttpVersion::Http2_0),
    ];
    for (token, version) in cases {
        let raw = format!("GET / {}\r\n\r\n", token);
        let r = Request::from_bytes(raw.as_bytes()).unwrap();
        assert_eq!(version, r.http_version);
    }
}

#[test]
fn unknown_method_is_rejected() {
    let r = Request::from_bytes(b"FOO / HTTP/1.1\r\n\r\n");
    assert_eq!(Err(HttpError::UnknownMethod), r.map(|_| ()));
}

#[test]
fn unknown_version_is_rejected() {
    let r = Request::from_bytes(b"GET / HTTP/9.9\r\n\r\n");
    assert_eq!(Err(HttpError::UnknownVersion), r.map(|_| ()));
}

#[test]
fn short_body_is_rejected() {
    let r = Request::from_bytes(b"GET / HTTP/1.1\r\nContent-Length: 10\r\n\r\nabc");
    assert_eq!(Err(HttpError::UnexpectedEof), r.map(|_| ()));
}

#[test]
fn missing_request_line_tokens_are_rejected() {
    let r = Request::from_bytes(b"GET /\r\n\r\n");
    assert_eq!(Err(HttpError::MalformedRequestLine), r.map(|_| ()));
}

#[test]
fn fourth_request_line_token_is_rejected() {
    let r = Request::from_bytes(b"GET / HTTP/1.1 extra\r\n\r\n");
    assert_eq!(Err(HttpError::MalformedRequestLine), r.map(|_| ()));
}

#[test]
fn non_numeric_content_length_is_rejected() {
    let r = Request::from_bytes(b"GET / HTTP/1.1\r\nContent-Length: abc\r\n\r\n");
    assert_eq!(Err(HttpError::InvalidContentLength), r.map(|_| ()));
}

#[test]
fn truncated_input_is_rejected() {
    assert_eq!(
        Err(HttpError::UnexpectedEof),
        Request::from_bytes(b"GET / HTTP/1.1").map(|_| ())
    );
    assert_eq!(
        Err(HttpError::UnexpectedEof),
        Request::from_bytes(b"GET / HTTP/1.1\r\nHost: localhost\r\n").map(|_| ())
    );
}

#[test]
fn multi_value_line_folds_on_semicolons() {
    let r = Request::from_bytes(b"GET / HTTP/1.1\r\nh: a; b; c\r\n\r\n").unwrap();
    assert_eq!(
        &vec![b"a".to_vec(), b"b".to_vec(), b"c".to_vec()],
        r.headers.get(b"h").unwrap()
    );
}

#[test]
fn repeated_header_lines_append_in_order() {
    let r = Request::from_bytes(b"GET / HTTP/1.1\r\nh: a\r\nh: b\r\n\r\n").unwrap();
    assert_eq!(
        &vec![b"a".to_vec(), b"b".to_vec()],
        r.headers.get(b"h").unwrap()
    );
}

#[test]
fn header_names_are_lowercased_and_lookup_is_case_insensitive() {
    let r = Request::from_bytes(b"GET / HTTP/1.1\r\nHOST: example\r\n\r\n").unwrap();
    assert_eq!(&vec![b"example".to_vec()], r.headers.get(b"host").unwrap());
    assert_eq!(&vec![b"example".to_vec()], r.headers.get(b"HoSt").unwrap());
    assert_eq!(0, r.body.len());
}

#[test]
fn body_reads_exactly_content_length() {
    let r = Request::from_bytes(b"POST /x HTTP/1.1\r\nContent-Length: 5\r\n\r\nhelloEXTRA").unwrap();
    assert_eq!(b"hello".to_vec(), r.body);
    assert_eq!(b"/x".to_vec(), r.raw_target);
    assert_eq!(Method::POST, r.method);
}

#[test]
fn newline_only_terminators_are_accepted() {
    let r = Request::from_bytes(b"GET /p HTTP/1.0\nHost: h\n\n").unwrap();
    assert_eq!(HttpVersion::Http1_0, r.http_version);
    assert_eq!(&vec![b"h".to_vec()], r.headers.get(b"host").unwrap());
}

#[test]
fn header_line_without_colon_stores_one_empty_value() {
    let r = Request::from_bytes(b"GET / HTTP/1.1\r\nPragma\r\n\r\n").unwrap();
    assert_eq!(&vec![b"".to_vec()], r.headers.get(b"pragma").unwrap());
}

#[test]
fn content_length_zero_gives_empty_body() {
    let r = Request::from_bytes(b"GET / HTTP/1.1\r\nContent-Length: 0\r\n\r\nleftover").unwrap();
    assert_eq!(0, r.body.len());
}

#[test]
fn values_are_trimmed_of_ascii_whitespace() {
    let r = Request::from_bytes(b"GET / HTTP/1.1\r\nh:   spaced out  ;\tb\r\n\r\n").unwrap();
    assert_eq!(
        &vec![b"spaced out".to_vec(), b"b".to_vec()],
        r.headers.get(b"h").unwrap()
    );
}

#[test]
fn colon_is_kept_in_header_values_after_the_first() {
    let r = Request::from_bytes(b"GET / HTTP/1.1\r\nHost: example.com:8080\r\n\r\n").unwrap();
    assert_eq!(
        &vec![b"example.com:8080".to_vec()],
        r.headers.get(b"host").unwrap()
    );
}
