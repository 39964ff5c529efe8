use rust_http::HttpServer;

#[test]
fn registering_the_same_route_twice_fails_validation() {
    let mut server: HttpServer<u32> = HttpServer::default();
    assert!(server.verify_route("/a"));
    server.register_route("/a", 1);
    assert!(!server.verify_route("/a"));
}

#[test]
fn route_without_leading_slash_fails_validation() {
    let server: HttpServer<u32> = HttpServer::default();
    assert!(!server.verify_route("a"));
    assert!(!server.verify_route(""));
}

#[test]
fn route_with_whitespace_fails_validation() {
    let server: HttpServer<u32> = HttpServer::default();
    assert!(!server.verify_route("/a b"));
    assert!(!server.verify_route("/a\tb"));
}

#[test]
fn resolve_picks_the_lexicographically_greatest_match() {
    let mut server: HttpServer<u32> = HttpServer::default();
    server.register_route("/a", 1);
    server.register_route("/*", 2);
    // Both "/a" and "/*" match the path "/a"; "/a" is the greater string
    // ('*' is 0x2A, 'a' is 0x61), so its handler wins.
    let idx = server.resolve("/a").unwrap();
    assert_eq!(*server.handler(idx), 1);
    // "/b" is matched by "/*" alone.
    let idx = server.resolve("/b").unwrap();
    assert_eq!(*server.handler(idx), 2);
}

#[test]
fn resolve_reports_a_miss() {
    let mut server: HttpServer<u32> = HttpServer::default();
    server.register_route("/ping", 1);
    assert!(server.resolve("/missing").is_none());
    assert!(server.resolve("/ping").is_some());
}
