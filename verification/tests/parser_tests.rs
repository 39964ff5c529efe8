use rust_http::HttpMethod;
use rust_http::HttpRequest;
use rust_http::ParseError;

#[test]
fn parses_method_uri_and_headers() {
    let req = HttpRequest::from_str("GET /ping HTTP/1.1\r\nHost: x\r\n\r\n").unwrap();
    assert!(matches!(req.method, HttpMethod::Get));
    assert_eq!(req.uri, "/ping");
    assert_eq!(req.headers.len(), 1);
    assert_eq!(req.headers[0].0, "Host");
    // No whitespace trimming: the value keeps its leading space.
    assert_eq!(req.headers[0].1, " x");
}

#[test]
fn missing_version_is_rejected() {
    let err = HttpRequest::from_str("GET /ping\r\n\r\n").unwrap_err();
    assert!(matches!(
        err,
        ParseError::MalformedRequest | ParseError::UnsupportedVersion
    ));
}

#[test]
fn unsupported_method_is_rejected() {
    let err = HttpRequest::from_str("PATCH / HTTP/1.1\r\n\r\n").unwrap_err();
    assert!(matches!(err, ParseError::UnsupportedMethod));
}

#[test]
fn wrong_version_is_rejected() {
    let err = HttpRequest::from_str("GET / HTTP/1.0\r\n\r\n").unwrap_err();
    assert!(matches!(err, ParseError::UnsupportedVersion));
}

#[test]
fn input_without_crlf_is_rejected() {
    let err = HttpRequest::from_str("GET / HTTP/1.1").unwrap_err();
    assert!(matches!(err, ParseError::MalformedRequest));
}

#[test]
fn post_is_supported() {
    let req = HttpRequest::from_str("POST /submit HTTP/1.1\r\n\r\n").unwrap();
    assert!(matches!(req.method, HttpMethod::Post));
    assert_eq!(req.uri, "/submit");
}

#[test]
fn later_duplicate_header_overwrites_the_earlier_one() {
    let req = HttpRequest::from_str("GET / HTTP/1.1\r\nA: 1\r\nA: 2\r\nB: 3\r\n\r\n").unwrap();
    assert_eq!(req.headers.len(), 2);
    assert_eq!(req.headers[0].0, "A");
    assert_eq!(req.headers[0].1, " 2");
    assert_eq!(req.headers[1].0, "B");
    assert_eq!(req.headers[1].1, " 3");
}

#[test]
fn header_lines_without_a_colon_are_skipped() {
    let req = HttpRequest::from_str("GET / HTTP/1.1\r\nnonsense\r\nHost: y\r\n\r\n").unwrap();
    assert_eq!(req.headers.len(), 1);
    assert_eq!(req.headers[0].0, "Host");
}

#[test]
fn header_value_is_everything_after_the_first_colon() {
    let req = HttpRequest::from_str("GET / HTTP/1.1\r\nHost: a:b:c\r\n\r\n").unwrap();
    assert_eq!(req.headers[0].1, " a:b:c");
}

#[test]
fn method_tokens_parse_exactly() {
    assert!(matches!(HttpMethod::from_str("GET"), Ok(HttpMethod::Get)));
    assert!(matches!(HttpMethod::from_str("POST"), Ok(HttpMethod::Post)));
    assert!(matches!(
        HttpMethod::from_str("get"),
        Err(ParseError::UnsupportedMethod)
    ));
}
