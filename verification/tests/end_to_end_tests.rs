use rust_http::dispatch_response;
use rust_http::DispatchOutcome;
use rust_http::HttpRequest;
use rust_http::HttpResponse;
use rust_http::HttpServer;

// The tests play the application: handlers are numbered, and the test invokes
// the one that `resolve` picks.
const PING_HANDLER: u8 = 0;
const FALLBACK_HANDLER: u8 = 1;

fn pong_page() -> HttpResponse {
    HttpResponse {
        body: b"<html><body>pong</body></html>".to_vec(),
        headers: Vec::new(),
        status_code: 200,
        content_type: "text/html".to_string(),
    }
}

fn serve(server: &HttpServer<u8>, raw: &str) -> HttpResponse {
    let outcome = match HttpRequest::from_str(raw) {
        Ok(req) => match server.resolve(req.uri.as_str()) {
            Some(i) => {
                if *server.handler(i) == PING_HANDLER {
                    DispatchOutcome::Handled(pong_page())
                } else {
                    DispatchOutcome::HandlerFault
                }
            }
            None => DispatchOutcome::NoRoute,
        },
        Err(_) => panic!("the test sends only parsable requests"),
    };
    dispatch_response(outcome)
}

#[test]
fn ping_serves_the_fixed_page() {
    let mut server: HttpServer<u8> = HttpServer::default();
    assert!(server.verify_route("/ping"));
    server.register_route("/ping", PING_HANDLER);
    assert!(server.verify_route("/*"));
    server.register_route("/*", FALLBACK_HANDLER);

    let mut resp = serve(&server, "GET /ping HTTP/1.1\r\n\r\n");
    assert_eq!(resp.status_code, 200);
    let text = String::from_utf8(resp.serialize()).unwrap();
    assert!(text.starts_with("HTTP/1.1 200 OK\r\n"));
    assert!(text.contains("pong"));
}

#[test]
fn a_miss_answers_404() {
    let mut server: HttpServer<u8> = HttpServer::default();
    server.register_route("/ping", PING_HANDLER);

    let mut resp = serve(&server, "GET /missing HTTP/1.1\r\n\r\n");
    assert_eq!(resp.status_code, 404);
    let text = String::from_utf8(resp.serialize()).unwrap();
    assert!(text.starts_with("HTTP/1.1 404 Not Found\r\n"));
}

#[test]
fn a_handler_fault_answers_500() {
    let mut resp = dispatch_response(DispatchOutcome::HandlerFault);
    assert_eq!(resp.status_code, 500);
    assert!(resp.body.is_empty());
    let text = String::from_utf8(resp.serialize()).unwrap();
    assert!(text.starts_with("HTTP/1.1 500 Internal Server Error\r\n"));
}

#[test]
fn the_fallback_route_catches_other_paths() {
    let mut server: HttpServer<u8> = HttpServer::default();
    server.register_route("/ping", PING_HANDLER);
    server.register_route("/*", FALLBACK_HANDLER);
    let idx = server.resolve("/whatever/else").unwrap();
    assert_eq!(*server.handler(idx), FALLBACK_HANDLER);
    let idx = server.resolve("/ping").unwrap();
    assert_eq!(*server.handler(idx), PING_HANDLER);
}
