use minihttp::auth::Authentication;
use minihttp::error::{ErrorKind, ServerError};
use minihttp::log::{log_line, LogLevel};
use minihttp::method::{method_from_name, Method};
use minihttp::request::{decode_request, parse_header_line, RequestDecoder};
use minihttp::response::ServerResponse;

fn chars(s: &str) -> Vec<char> {
    s.chars().collect()
}

/// Splits written bytes into status line, header lines and body.
fn read_back(bytes: &[u8]) -> (String, Vec<(String, String)>, Vec<u8>) {
    let end = bytes.windows(4).position(|w| w == b"\r\n\r\n").expect("no empty line");
    let head = String::from_utf8(bytes[..end].to_vec()).unwrap();
    let mut lines = head.split("\r\n");
    let status = lines.next().unwrap().to_string();
    let headers = lines
        .map(|l| {
            let (k, v) = l.split_once(": ").unwrap();
            (k.to_string(), v.to_string())
        })
        .collect();
    (status, headers, bytes[end + 4..].to_vec())
}

#[test]
fn decodes_simple_get() {
    let req = decode_request("GET /api/sum/123/876 HTTP/1.1\r\n\r\n").unwrap();
    assert_eq!(req.method, Method::Get);
    assert_eq!(req.path(), "/api/sum/123/876");
    assert!(req.headers.is_empty());
    assert_eq!(req.body, None);
    assert_eq!(req.query, None);
}

#[test]
fn decodes_post_with_headers_and_body() {
    let text = "POST /api/echo?username=u&password=p HTTP/1.1\r\nHost: example\r\nX-Id: 7\r\n\r\nhello\r\nworld";
    let req = decode_request(text).unwrap();
    assert_eq!(req.method, Method::Post);
    assert_eq!(req.path, "/api/echo");
    assert_eq!(req.query, Some("username=u&password=p".to_string()));
    assert_eq!(
        req.headers,
        vec![("Host".to_string(), "example".to_string()), ("X-Id".to_string(), "7".to_string())]
    );
    assert_eq!(req.body_str(), "helloworld");
}

#[test]
fn body_stops_at_empty_line() {
    let req = decode_request("PUT /x HTTP/1.1\n\nab\n\ncd\n").unwrap();
    assert_eq!(req.body, Some("ab".to_string()));
}

#[test]
fn post_without_header_end_is_refused() {
    let e = decode_request("POST /x HTTP/1.1\r\nHost: a\r\n").unwrap_err();
    assert_eq!(e.kind, ErrorKind::Parse);
}

#[test]
fn get_may_end_with_the_stream() {
    let req = decode_request("DELETE /items/4 HTTP/1.1\r\nHost: a").unwrap();
    assert_eq!(req.method, Method::Delete);
    assert_eq!(req.headers, vec![("Host".to_string(), "a".to_string())]);
    assert_eq!(req.body, None);
}

#[test]
fn missing_version_is_refused() {
    assert_eq!(decode_request("GET /api/sum/1/2\r\n\r\n").unwrap_err().kind, ErrorKind::Parse);
    assert_eq!(decode_request("GET /api HTTP/1.0\r\n\r\n").unwrap_err().kind, ErrorKind::Parse);
}

#[test]
fn unsupported_method_is_refused() {
    assert_eq!(decode_request("PATCH /api HTTP/1.1\r\n\r\n").unwrap_err().kind, ErrorKind::Parse);
    assert_eq!(decode_request("get /api HTTP/1.1\r\n\r\n").unwrap_err().kind, ErrorKind::Parse);
}

#[test]
fn empty_stream_is_refused() {
    assert_eq!(decode_request("").unwrap_err().kind, ErrorKind::Parse);
}

#[test]
fn invalid_target_is_refused() {
    assert_eq!(decode_request("GET /a b HTTP/1.1\r\n\r\n").unwrap_err().kind, ErrorKind::Parse);
    assert_eq!(decode_request("GET  HTTP/1.1\r\n\r\n").unwrap_err().kind, ErrorKind::Parse);
}

#[test]
fn malformed_header_is_refused() {
    assert_eq!(decode_request("GET / HTTP/1.1\r\nHost a\r\n\r\n").unwrap_err().kind, ErrorKind::Parse);
    assert_eq!(decode_request("GET / HTTP/1.1\r\nHost:\r\n\r\n").unwrap_err().kind, ErrorKind::Parse);
    assert_eq!(decode_request("GET / HTTP/1.1\r\nHo st: a\r\n\r\n").unwrap_err().kind, ErrorKind::Parse);
    assert_eq!(decode_request("GET / HTTP/1.1\r\nHost: a\u{1}b\r\n\r\n").unwrap_err().kind, ErrorKind::Parse);
}

#[test]
fn header_line_split() {
    assert_eq!(
        parse_header_line(&chars("Content-Type: a: b")),
        Some(("Content-Type".to_string(), "a: b".to_string()))
    );
    assert_eq!(parse_header_line(&chars(": x")), None);
}

#[test]
fn decoder_fed_line_by_line() {
    let mut d = RequestDecoder::new();
    d.push_line("GET /a?username=x&password=y HTTP/1.1");
    assert!(d.wants_line());
    d.push_line("Accept: */*");
    assert!(d.wants_line());
    d.push_line("");
    assert!(!d.wants_line());
    let req = d.into_request().unwrap();
    assert_eq!(req.path, "/a");
    assert_eq!(req.query_argument("password").unwrap(), "y");
}

#[test]
fn read_failure_is_parse_error() {
    let mut d = RequestDecoder::new();
    d.push_line("GET / HTTP/1.1");
    d.read_failed();
    assert_eq!(d.into_request().unwrap_err().kind, ErrorKind::Parse);
}

#[test]
fn query_arguments() {
    let req = decode_request("GET /a?username=alice&password=secret HTTP/1.1\r\n\r\n").unwrap();
    assert_eq!(req.query_argument("username").unwrap(), "alice");
    assert_eq!(req.query_argument("password").unwrap(), "secret");
    assert_eq!(req.query_argument("token").unwrap_err().kind, ErrorKind::NotFound);
    let req = decode_request("GET /a?username=&username=carol HTTP/1.1\r\n\r\n").unwrap();
    assert_eq!(req.query_argument("username").unwrap(), "carol");
    let req = decode_request("GET /a HTTP/1.1\r\n\r\n").unwrap();
    assert_eq!(req.query_argument("username").unwrap_err().kind, ErrorKind::NotFound);
}

#[test]
fn credentials_from_request() {
    let req = decode_request("GET /a?username=alice&password=secret HTTP/1.1\r\n\r\n").unwrap();
    let a = Authentication::from_request(&req).unwrap();
    assert_eq!(a.username, "alice");
    assert_eq!(a.password, "secret");
    let req = decode_request("GET /a?username=alice HTTP/1.1\r\n\r\n").unwrap();
    assert_eq!(Authentication::from_request(&req).unwrap_err().kind, ErrorKind::Unauthorized);
}

#[test]
fn method_names() {
    assert_eq!(method_from_name(&chars("PUT")).unwrap(), Method::Put);
    assert_eq!(method_from_name(&chars("PATCH")).unwrap_err().kind, ErrorKind::NotImplemented);
    assert!(Method::Post.has_body());
    assert!(!Method::Delete.has_body());
}

#[test]
fn error_status_codes() {
    assert_eq!(ServerError::new(ErrorKind::Parse, "x").code(), 400);
    assert_eq!(ServerError::new(ErrorKind::Unauthorized, "x").code(), 401);
    assert_eq!(ServerError::new(ErrorKind::NotFound, "x").code(), 404);
    assert_eq!(ServerError::new(ErrorKind::Conflict, "x").code(), 409);
    assert_eq!(ServerError::new(ErrorKind::NotImplemented, "x").code(), 501);
    assert_eq!(ServerError::err("x").code(), 500);
    assert_eq!(ServerError::new(ErrorKind::Transport, "x").code(), 500);
    assert_eq!(ServerError::new(ErrorKind::RouteConflict, "x").code(), 500);
}

#[test]
fn log_lines() {
    assert_eq!(log_line(LogLevel::Warn, "careful"), "[WARN] \x1b[33mcareful\x1b[0m");
    assert_eq!(log_line(LogLevel::Log, "hi"), "[LOG] \x1b[0mhi\x1b[0m");
    assert_eq!(ServerError::err("boom").log(), "[ERROR] \x1b[31mboom\x1b[0m");
}

#[test]
fn plain_response_bytes() {
    let bytes = ServerResponse::create(200, b"hi".to_vec()).into_bytes();
    assert_eq!(bytes, b"HTTP/1.1 200 OK\r\nContent-Type: text/plain\r\n\r\nhi".to_vec());
}

#[test]
fn json_response_bytes() {
    let bytes = ServerResponse::json("{\"sum\":999}").into_bytes();
    assert_eq!(bytes, b"HTTP/1.1 200 OK\r\nContent-Type: application/json\r\n\r\n{\"sum\":999}".to_vec());
}

#[test]
fn unknown_status_has_no_reason() {
    let bytes = ServerResponse::create(599, Vec::new()).into_bytes();
    assert_eq!(bytes, b"HTTP/1.1 599\r\nContent-Type: text/plain\r\n\r\n".to_vec());
    let bytes = ServerResponse::create(404, Vec::new()).into_bytes();
    assert!(bytes.starts_with(b"HTTP/1.1 404 Not Found\r\n"));
}

#[test]
fn binary_body_is_written_lossily() {
    let bytes = ServerResponse::create(200, vec![b'f', 0xff]).into_bytes();
    assert!(bytes.ends_with("\r\n\r\nf\u{FFFD}".as_bytes()));
}

#[test]
fn response_round_trip_bytes() {
    let headers = vec![
        ("X-One".to_string(), "1".to_string()),
        ("Set-Cookie".to_string(), "a=b; Path=/".to_string()),
    ];
    let resp = ServerResponse::create_base(201, headers.clone(), Some(b"line1\r\n\r\nline2".to_vec())).unwrap();
    let (status, read_headers, body) = read_back(&resp.into_bytes());
    assert_eq!(status, "HTTP/1.1 201 Created");
    assert_eq!(read_headers, headers);
    assert_eq!(body, b"line1\r\n\r\nline2".to_vec());
    assert!(!read_headers.iter().any(|(k, _)| k.eq_ignore_ascii_case("content-length") || k.eq_ignore_ascii_case("connection")));
}

#[test]
fn response_without_body() {
    let resp = ServerResponse::create_base(204, vec![], None).unwrap();
    assert_eq!(resp.into_bytes(), b"HTTP/1.1 204 No Content\r\n\r\n".to_vec());
}

#[test]
fn invalid_response_is_internal_error() {
    assert_eq!(ServerResponse::create_base(42, vec![], None).unwrap_err().kind, ErrorKind::Internal);
    let bad = vec![("Bad Name".to_string(), "v".to_string())];
    assert_eq!(ServerResponse::create_base(200, bad, None).unwrap_err().kind, ErrorKind::Internal);
    let bad = vec![("X".to_string(), "a\r\nb".to_string())];
    assert_eq!(ServerResponse::create_base(200, bad, None).unwrap_err().kind, ErrorKind::Internal);
}

#[test]
fn file_response_is_attachment() {
    let resp = ServerResponse::file("favicon.ico", Some(b"ICON".to_vec())).unwrap();
    assert_eq!(resp.status, 200);
    assert_eq!(
        resp.headers,
        vec![("Content-Disposition".to_string(), "attachment; filename=\"favicon.ico\"".to_string())]
    );
    let (status, _, body) = read_back(&resp.into_bytes());
    assert_eq!(status, "HTTP/1.1 200 OK");
    assert_eq!(body, b"ICON".to_vec());
}

#[test]
fn unreadable_file_is_not_found() {
    assert_eq!(ServerResponse::file("favicon.ico", None).unwrap_err().kind, ErrorKind::NotFound);
}

#[test]
fn error_reply_bytes() {
    let e = ServerError::new(ErrorKind::Unauthorized, "Authentication failed");
    let bytes = ServerResponse::error_response(&e).into_bytes();
    assert_eq!(bytes, b"HTTP/1.1 401 Unauthorized\r\nContent-Type: text/plain\r\n\r\nAuthentication failed".to_vec());
}
