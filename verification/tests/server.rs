use tollgate::error::RequestError;
use tollgate::server::{
    head_error_response, parse_head, rejection_response, sanitize, simple_response, upstream_head,
    HeadResult,
};
use tollgate::Request;

fn complete(data: &[u8]) -> (Request, usize, usize) {
    match parse_head(data, false, "9.9.9.9") {
        HeadResult::Complete { request, content_length, head_len } => (request, content_length, head_len),
        HeadResult::Incomplete => panic!("incomplete"),
        HeadResult::Failed(e) => panic!("failed: {e:?}"),
    }
}

fn failure(data: &[u8], eof: bool) -> RequestError {
    match parse_head(data, eof, "9.9.9.9") {
        HeadResult::Failed(e) => e,
        HeadResult::Incomplete => panic!("incomplete"),
        HeadResult::Complete { .. } => panic!("complete"),
    }
}

#[test]
fn reads_a_full_head() {
    let raw = b"get /v1/thing/42?x=1 HTTP/1.1\r\nHost: GW.local:8080\r\nX-API-Key:  reader \r\nContent-Length: 5\r\n\r\n";
    let (req, len, used) = complete(raw);
    assert_eq!(req.method, "GET");
    assert_eq!(req.host, "gw.local");
    assert_eq!(req.path, "/v1/thing/42");
    assert_eq!(req.query.as_deref(), Some("x=1"));
    assert_eq!(req.header("x-api-key"), Some("reader"));
    assert_eq!(req.client_ip, "9.9.9.9");
    assert_eq!(len, 5);
    assert_eq!(used, raw.len());
}

#[test]
fn waits_for_the_blank_line() {
    assert!(matches!(parse_head(b"GET / HTTP/1.1\r\nHost: a\r\n", false, "ip"), HeadResult::Incomplete));
    assert!(matches!(parse_head(b"GET / HT", false, "ip"), HeadResult::Incomplete));
    // At the end of the input the head is whatever arrived.
    assert!(matches!(
        parse_head(b"GET / HTTP/1.1\r\nHost: a\r\n", true, "ip"),
        HeadResult::Complete { .. }
    ));
}

#[test]
fn malformed_heads_are_rejected() {
    assert_eq!(failure(b"TOTALLY NOT HTTP\r\n", false), RequestError::UnsupportedVersion);
    assert_eq!(failure(b"GET /\r\n", false), RequestError::BadRequestLine);
    assert_eq!(failure(b"GET nope HTTP/1.1\r\n", false), RequestError::BadRequestLine);
    assert_eq!(failure(b"GET / HTTP/2\r\n", false), RequestError::UnsupportedVersion);
    assert_eq!(failure(b"\r\n", false), RequestError::Empty);
    assert_eq!(failure(b"", true), RequestError::Empty);
    assert_eq!(failure(b"GET / HTTP/1.1\r\nno colon\r\n\r\n", false), RequestError::BadHeader);
    assert_eq!(failure(b"GET / HTTP/1.1\r\n : v\r\n\r\n", false), RequestError::BadHeader);
    assert_eq!(failure(b"GET / HTTP/1.1\r\n\xff: v\r\n\r\n", false), RequestError::BadHeader);
    assert_eq!(
        failure(b"GET / HTTP/1.1\r\nContent-Length: 9999999999\r\n\r\n", false),
        RequestError::TooLarge
    );
}

#[test]
fn bounds_on_head_size_and_header_count() {
    let mut long = b"GET /".to_vec();
    long.extend(std::iter::repeat(b'a').take(70_000));
    assert_eq!(failure(&long, false), RequestError::TooLarge);
    let mut many = b"GET / HTTP/1.1\r\n".to_vec();
    for i in 0..101 {
        many.extend(format!("h{i}: v\r\n").as_bytes());
    }
    many.extend(b"\r\n");
    assert_eq!(failure(&many, false), RequestError::TooLarge);
}

#[test]
fn unreadable_content_length_counts_as_zero() {
    let (_, len, _) = complete(b"POST / HTTP/1.1\r\nContent-Length: abc\r\n\r\n");
    assert_eq!(len, 0);
    let (_, len, _) = complete(b"POST / HTTP/1.1\r\nContent-Length: +12\r\n\r\n");
    assert_eq!(len, 12);
}

#[test]
fn rejection_response_text() {
    let headers = vec![("Retry-After".to_string(), "1".to_string())];
    let text = rejection_response(429, "rate limit exceeded, retry after 1s", &headers);
    let body = "429 Too Many Requests: rate limit exceeded, retry after 1s\n";
    assert_eq!(
        text,
        format!(
            "HTTP/1.1 429 Too Many Requests\r\nContent-Type: text/plain; charset=utf-8\r\nContent-Length: {}\r\nX-Tollgate-Reason: rate limit exceeded, retry after 1s\r\nRetry-After: 1\r\nConnection: close\r\n\r\n{body}",
            body.len()
        )
    );
    let text = simple_response(400, "Bad Request", "malformed\r\nline");
    assert!(text.starts_with("HTTP/1.1 400 Bad Request\r\n"));
    assert!(text.contains("X-Tollgate-Reason: malformedline\r\n"));
    assert!(rejection_response(418, "teapot", &Vec::new()).starts_with("HTTP/1.1 418 Error\r\n"));
    assert_eq!(sanitize("a\rb\nc"), "abc");
}

#[test]
fn upstream_head_drops_connection() {
    let req = Request::new("GET", "h", "/users/7?q=1")
        .with_header("Connection", "keep-alive")
        .with_header("X-Tollgate", "proxied");
    assert_eq!(
        upstream_head(&req),
        "GET /users/7?q=1 HTTP/1.1\r\nx-tollgate: proxied\r\nConnection: close\r\n\r\n"
    );
}

/// The gateway's wire path without sockets: read the head from bytes, decide,
/// then render the upstream head or the rejection, as the server does.
fn respond(config: &tollgate::Config, limiter: &mut tollgate::RateLimiter, raw: &[u8]) -> String {
    match parse_head(raw, false, "127.0.0.1") {
        HeadResult::Complete { request, .. } => match tollgate::decide(config, &request, 0, limiter) {
            tollgate::Decision::Allow { request, .. } => upstream_head(&request),
            tollgate::Decision::Reject { status, reason, headers } => {
                rejection_response(status, &reason, &headers)
            }
        },
        HeadResult::Failed(e) => simple_response(400, "Bad Request", &e.to_string()),
        HeadResult::Incomplete => panic!("incomplete"),
    }
}

#[test]
fn wire_path_without_sockets() {
    let config = tollgate::Config::parse(
        "key reader scopes read\n\nroute {\n  method GET\n  host gw.local\n  path /v1/thing/:id\n  auth scope read\n  rate 1/s burst 2\n  upstream 127.0.0.1:9\n  strip_prefix /v1\n  set_header X-Tollgate proxied\n}\n",
    )
    .unwrap();
    let mut limiter = tollgate::RateLimiter::new();

    let ok = respond(
        &config,
        &mut limiter,
        b"GET /v1/thing/42 HTTP/1.1\r\nHost: gw.local\r\nX-API-Key: reader\r\nConnection: close\r\n\r\n",
    );
    assert!(ok.starts_with("GET /thing/42 HTTP/1.1\r\n"), "got: {ok}");
    assert!(ok.contains("x-tollgate: proxied\r\n"), "shaping not applied: {ok}");
    assert!(ok.ends_with("Connection: close\r\n\r\n"));

    let notfound = respond(
        &config,
        &mut limiter,
        b"GET /nope HTTP/1.1\r\nHost: gw.local\r\nX-API-Key: reader\r\nConnection: close\r\n\r\n",
    );
    assert!(notfound.starts_with("HTTP/1.1 404 Not Found\r\n"), "got: {notfound}");

    let unauth = respond(&config, &mut limiter, b"GET /v1/thing/42 HTTP/1.1\r\nHost: gw.local\r\n\r\n");
    assert!(unauth.starts_with("HTTP/1.1 401 Unauthorized\r\n"), "got: {unauth}");
    assert!(unauth.contains("WWW-Authenticate: Bearer realm=\"tollgate\"\r\n"));

    let key_req: &[u8] = b"GET /v1/thing/9 HTTP/1.1\r\nHost: gw.local\r\nX-API-Key: reader\r\n\r\n";
    let _ = respond(&config, &mut limiter, key_req);
    let limited = respond(&config, &mut limiter, key_req);
    assert!(limited.starts_with("HTTP/1.1 429 Too Many Requests\r\n"), "got: {limited}");
    assert!(limited.contains("Retry-After: 1\r\n"));

    let bad = respond(&config, &mut limiter, b"TOTALLY NOT HTTP\r\n\r\n");
    assert!(bad.starts_with("HTTP/1.1 400 Bad Request\r\n"), "got: {bad}");
    let after = respond(&config, &mut limiter, b"GET /nope HTTP/1.1\r\nHost: gw.local\r\n\r\n");
    assert!(after.starts_with("HTTP/1.1 404 Not Found\r\n"));
}

#[test]
fn head_errors_are_answered_with_400_except_an_empty_request() {
    assert_eq!(head_error_response(RequestError::Empty), None);
    assert_eq!(
        head_error_response(RequestError::BadHeader),
        Some(simple_response(400, "Bad Request", "malformed header line"))
    );
    let text = head_error_response(RequestError::TooLarge).unwrap();
    assert!(text.starts_with("HTTP/1.1 400 Bad Request\r\n"));
    assert!(text.contains("X-Tollgate-Reason: request head exceeded byte limit\r\n"));
}

#[test]
fn wire_head_with_an_ipv6_host() {
    let (req, _, _) = complete(b"GET / HTTP/1.1\r\nHost: [::1]:8080\r\n\r\n");
    assert_eq!(req.host, "[::1]");
}

#[test]
fn stored_headers_are_lowercase_and_trimmed() {
    let (req, len, used) = complete(b"GET / HTTP/1.1\r\n  X-Thing  :  v w  \r\nHOST:\r\n\r\n");
    assert_eq!(
        req.headers,
        vec![("x-thing".to_string(), "v w".to_string()), ("host".to_string(), String::new())]
    );
    assert_eq!(len, 0);
    assert!(used <= 65536);
    assert!(req.body.is_empty());
    assert_eq!(req.client_ip, "9.9.9.9");
}

#[test]
fn more_bytes_do_not_change_a_finished_answer() {
    let head: &[u8] = b"GET /a HTTP/1.1\r\nHost: h\r\n\r\n";
    let mut longer = head.to_vec();
    longer.extend(b"body bytes and more\r\n\r\n");
    let (a, la, ua) = complete(head);
    let (b, lb, ub) = complete(&longer);
    assert_eq!((a, la, ua), (b, lb, ub));
    let bad: &[u8] = b"GET / HTTP/1.1\r\nno colon\r\n";
    let mut bad_longer = bad.to_vec();
    bad_longer.extend(b"x: y\r\n\r\n");
    assert_eq!(failure(bad, false), failure(&bad_longer, false));
}
