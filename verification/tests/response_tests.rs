use std::collections::HashMap;

use http_codec::response::Response;
use http_codec::status_code::StatusCode;

fn parse_header_line(line: &String, fields: &mut HashMap<String, Vec<String>>) {
    let line_parts = line.split(":").map(|s| s.trim()).collect::<Vec<_>>();
    let (header_name, header_values) = match line_parts.as_slice() {
        [first, second] => (first, second),
        _ => panic!("Unexpected number of parts in header line: '{}'", line),
    };

    fields.insert(
        header_name.to_string(),
        header_values
            .split(";")
            .map(|s| s.trim().to_string())
            .collect::<Vec<_>>(),
    );
}

#[test]
fn test() {
    let mut response = Response::new();
    response.status_code = StatusCode::from_int(500).unwrap();
    response.body = "The quick brown fox jumped over the lazy dog.\nabcdefghijklmnopqrstuvwxyz\nABCDEFGHIJKLMNOPQRSTUVWXYZ".as_bytes().to_vec();
    response
        .headers
        .insert(b"Accept".to_vec(), vec![b"*/*".to_vec()]);
    response.headers.insert(
        b"Access-Control-Allow-Origins".to_vec(),
        vec![b"localhost".to_vec(), b"*.example.com".to_vec()],
    );

    let mut output = vec![];

    response.write_to(&mut output).expect("Should not fail");

    let output = String::from_utf8(output).unwrap();
    let mut lines = output.lines();

    assert_eq!("HTTP/1.1 500 Internal Server Error", lines.next().unwrap());

    let mut fields = HashMap::new();
    let header_line1 = lines.next().unwrap();
    let header_line2 = lines.next().unwrap();

    parse_header_line(&header_line1.to_string(), &mut fields);
    parse_header_line(&header_line2.to_string(), &mut fields);

    assert_eq!(
        &vec!["*/*".to_string()],
        fields.get(&"Accept".to_string()).unwrap()
    );
    assert_eq!(
        &vec!["localhost", "*.example.com"],
        fields
            .get(&"Access-Control-Allow-Origins".to_string())
            .unwrap()
    );

    let blank_line = lines.next().unwrap();
    assert!(blank_line.is_empty());

    let body = lines.collect::<Vec<_>>().join("\n");

    assert_eq!(
        "The quick brown fox jumped over the lazy dog.\n\
            abcdefghijklmnopqrstuvwxyz\n\
            ABCDEFGHIJKLMNOPQRSTUVWXYZ",
        body
    );
}

#[test]
fn empty_response_encodes_to_status_line_and_blank_line() {
    let response = Response::new();
    let mut output: Vec<u8> = vec![];
    response.write_to(&mut output).expect("Should not fail");
    assert_eq!("HTTP/1.1 200 OK\r\n\r\n".as_bytes().to_vec(), output);
}

#[test]
fn encoder_emits_headers_verbatim_and_joins_values() {
    let mut response = Response::new();
    response.headers.insert(
        b"Access-Control-Allow-Origins".to_vec(),
        vec![b"localhost".to_vec(), b"*.example.com".to_vec()],
    );
    response.body = b"Hello".to_vec();
    let mut output: Vec<u8> = vec![];
    response.write_to(&mut output).expect("Should not fail");
    let text = String::from_utf8(output).unwrap();
    assert_eq!(
        "HTTP/1.1 200 OK\r\nAccess-Control-Allow-Origins: localhost;*.example.com\r\n\r\nHello",
        text
    );
}

#[test]
fn encoder_contains_exactly_one_separator() {
    let mut response = Response::new();
    response.status_code = StatusCode::from_int(404).unwrap();
    response
        .headers
        .insert(b"Accept".to_vec(), vec![b"*/*".to_vec()]);
    response.body = b"gone fishing".to_vec();
    let mut output: Vec<u8> = vec![];
    response.write_to(&mut output).expect("Should not fail");
    let count = output
        .windows(4)
        .filter(|w| *w == b"\r\n\r\n")
        .count();
    assert_eq!(1, count);
}
