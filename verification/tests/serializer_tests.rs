use rust_http::status_code_message;
use rust_http::HttpResponse;

#[test]
fn serializes_status_line_headers_and_body() {
    let mut resp = HttpResponse {
        body: b"hi".to_vec(),
        headers: Vec::new(),
        status_code: 200,
        content_type: "text/plain".to_string(),
    };
    let bytes = resp.serialize();
    let text = String::from_utf8(bytes).unwrap();
    assert_eq!(
        text,
        "HTTP/1.1 200 OK\r\nContent-Length: 2\r\nContent-Type: text/plain\r\nServer: rust-http/0.1\r\n\r\nhi"
    );
}

#[test]
fn header_lines_appear_sorted_by_their_rendered_text() {
    let mut resp = HttpResponse {
        body: Vec::new(),
        headers: vec![
            ("X-Later".to_string(), "1".to_string()),
            ("Accept".to_string(), "2".to_string()),
        ],
        status_code: 404,
        content_type: String::new(),
    };
    let bytes = resp.serialize();
    let text = String::from_utf8(bytes).unwrap();
    assert_eq!(
        text,
        "HTTP/1.1 404 Not Found\r\nAccept: 2\r\nContent-Length: 0\r\nContent-Type: \r\nServer: rust-http/0.1\r\nX-Later: 1\r\n\r\n"
    );
}

#[test]
fn serializing_twice_yields_identical_bytes() {
    let mut resp = HttpResponse {
        body: b"hi".to_vec(),
        headers: vec![("X-Custom".to_string(), "yes".to_string())],
        status_code: 200,
        content_type: "text/plain".to_string(),
    };
    let first = resp.serialize();
    let second = resp.serialize();
    assert_eq!(first, second);
}

#[test]
fn the_injected_headers_land_in_the_mapping() {
    let mut resp = HttpResponse {
        body: b"abc".to_vec(),
        headers: Vec::new(),
        status_code: 500,
        content_type: "text/html".to_string(),
    };
    resp.serialize();
    assert_eq!(resp.headers.len(), 3);
    assert!(resp
        .headers
        .contains(&("Server".to_string(), "rust-http/0.1".to_string())));
    assert!(resp
        .headers
        .contains(&("Content-Length".to_string(), "3".to_string())));
    assert!(resp
        .headers
        .contains(&("Content-Type".to_string(), "text/html".to_string())));
}

#[test]
fn reason_phrases_for_the_supported_codes() {
    assert_eq!(status_code_message(200), "OK");
    assert_eq!(status_code_message(400), "Bad Request");
    assert_eq!(status_code_message(404), "Not Found");
    assert_eq!(status_code_message(500), "Internal Server Error");
}

#[test]
fn default_response_is_empty_with_status_zero() {
    let resp = HttpResponse::default();
    assert_eq!(resp.status_code, 0);
    assert!(resp.body.is_empty());
    assert!(resp.headers.is_empty());
    assert!(resp.content_type.is_empty());
}
