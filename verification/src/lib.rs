//! A minimal HTTP/1.1 server core: a glob-based route matcher, a request
//! parser, a route table with a lexicographic tie-break rule, and a response
//! serializer. Networking and handler invocation live outside this crate; the
//! library turns bytes into structured requests, resolves a request path to a
//! registered route, and turns structured responses back into bytes.

pub mod glob;
pub mod headers;
pub mod request;
pub mod response;
pub mod server;
pub mod text;

pub use glob::glob;
pub use request::HttpMethod;
pub use request::HttpRequest;
pub use request::ParseError;
pub use response::status_code_message;
pub use response::HttpResponse;
pub use server::dispatch_response;
pub use server::DispatchOutcome;
pub use server::HttpServer;

