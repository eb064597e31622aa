use std::time::Duration;

use tollgate::{decide, Config, Decision, RateLimiter, Request};

const POLICY: &str = "\
key reader scopes read:users
key writer scopes read:users,write:users

route {
  method GET
  host api.example.com
  path /v1/users/:id
  auth scope read:users
  rate 2/s burst 2
  upstream 127.0.0.1:9000
  strip_prefix /v1
  set_header X-Tollgate proxied
}

route {
  method GET
  host api.example.com
  path /health
  upstream 127.0.0.1:9001
}
";

/// The injected clock reading, in nanoseconds.
fn at(d: Duration) -> u64 {
    d.as_nanos() as u64
}

fn config() -> Config {
    Config::parse(POLICY).expect("policy parses")
}

fn get(path: &str) -> Request {
    Request::new("GET", "api.example.com", path).with_client_ip("10.0.0.1")
}

#[test]
fn unknown_route_is_404() {
    let d = decide(&config(), &get("/nope"), at(Duration::ZERO), &mut RateLimiter::new());
    assert_eq!(d.status(), 404);
}

#[test]
fn missing_key_is_401_with_challenge() {
    let d = decide(&config(), &get("/v1/users/1"), at(Duration::ZERO), &mut RateLimiter::new());
    match d {
        Decision::Reject { status, headers, .. } => {
            assert_eq!(status, 401);
            assert!(headers.iter().any(|(k, _)| k == "WWW-Authenticate"));
        }
        _ => panic!("expected 401"),
    }
}

#[test]
fn unknown_key_is_401() {
    let req = get("/v1/users/1").with_header("X-API-Key", "bogus");
    let d = decide(&config(), &req, at(Duration::ZERO), &mut RateLimiter::new());
    assert_eq!(d.status(), 401);
}

#[test]
fn wrong_scope_is_403() {
    // "reader" has read:users but this simulates a route needing more: use a
    // key that exists but lacks the scope by pointing at a write-only need.
    let policy = POLICY.replace("auth scope read:users", "auth scope write:users");
    let config = Config::parse(&policy).unwrap();
    let req = get("/v1/users/1").with_header("Authorization", "Bearer reader");
    let d = decide(&config, &req, at(Duration::ZERO), &mut RateLimiter::new());
    assert_eq!(d.status(), 403);
}

#[test]
fn correct_key_is_allowed_and_shaped() {
    let req = get("/v1/users/7").with_header("X-API-Key", "reader");
    let d = decide(&config(), &req, at(Duration::ZERO), &mut RateLimiter::new());
    match d {
        Decision::Allow { upstream, request } => {
            assert_eq!(upstream, "127.0.0.1:9000");
            // strip_prefix removed /v1.
            assert_eq!(request.path, "/users/7");
            assert_eq!(request.header("x-tollgate"), Some("proxied"));
        }
        _ => panic!("expected allow"),
    }
}

#[test]
fn rate_limit_trips_after_burst_with_retry_after() {
    let config = config();
    let req = get("/v1/users/7").with_header("X-API-Key", "reader");
    let mut rl = RateLimiter::new();

    assert_eq!(decide(&config, &req, at(Duration::ZERO), &mut rl).status(), 200);
    assert_eq!(decide(&config, &req, at(Duration::ZERO), &mut rl).status(), 200);
    let third = decide(&config, &req, at(Duration::ZERO), &mut rl);
    match third {
        Decision::Reject { status, headers, .. } => {
            assert_eq!(status, 429);
            let retry = headers.iter().find(|(k, _)| k == "Retry-After");
            assert_eq!(retry.map(|(_, v)| v.as_str()), Some("1"));
        }
        _ => panic!("expected 429"),
    }
}

#[test]
fn two_keys_do_not_share_a_bucket() {
    let config = config();
    let mut rl = RateLimiter::new();
    let reader = get("/v1/users/7").with_header("X-API-Key", "reader");
    let writer = get("/v1/users/7").with_header("X-API-Key", "writer");

    // Drain reader's bucket.
    assert_eq!(decide(&config, &reader, at(Duration::ZERO), &mut rl).status(), 200);
    assert_eq!(decide(&config, &reader, at(Duration::ZERO), &mut rl).status(), 200);
    assert_eq!(decide(&config, &reader, at(Duration::ZERO), &mut rl).status(), 429);
    // writer is untouched.
    assert_eq!(decide(&config, &writer, at(Duration::ZERO), &mut rl).status(), 200);
}

#[test]
fn health_route_needs_no_key() {
    let d = decide(&config(), &get("/health"), at(Duration::ZERO), &mut RateLimiter::new());
    assert_eq!(d.status(), 200);
}

// ----- further cases ----------------------------------------------------------------

#[test]
fn reasons_are_explicit() {
    let d = decide(&config(), &get("/nope"), 0, &mut RateLimiter::new());
    assert_eq!(d.reason(), "no route matches host, method, and path");
    let d = decide(&config(), &get("/health"), 0, &mut RateLimiter::new());
    assert_eq!(d.reason(), "allowed");
    let config = config();
    let req = get("/v1/users/7").with_header("X-API-Key", "reader");
    let mut rl = RateLimiter::new();
    decide(&config, &req, 0, &mut rl);
    decide(&config, &req, 0, &mut rl);
    assert_eq!(decide(&config, &req, 0, &mut rl).reason(), "rate limit exceeded, retry after 1s");
}

#[test]
fn rejected_requests_spend_no_tokens() {
    let config = config();
    let mut rl = RateLimiter::new();
    // Unauthorized attempts do not touch the reader's bucket.
    for _ in 0..5 {
        let bad = get("/v1/users/7").with_header("X-API-Key", "bogus");
        assert_eq!(decide(&config, &bad, 0, &mut rl).status(), 401);
    }
    let reader = get("/v1/users/7").with_header("X-API-Key", "reader");
    assert_eq!(decide(&config, &reader, 0, &mut rl).status(), 200);
    assert_eq!(decide(&config, &reader, 0, &mut rl).status(), 200);
}

#[test]
fn anonymous_routes_are_limited_per_client_address() {
    let text = "route {\n  path /open\n  rate 1/s burst 1\n  upstream u\n}\n";
    let config = Config::parse(text).unwrap();
    let mut rl = RateLimiter::new();
    let a = Request::new("GET", "h", "/open").with_client_ip("1.1.1.1");
    let b = Request::new("GET", "h", "/open").with_client_ip("2.2.2.2");
    assert_eq!(decide(&config, &a, 0, &mut rl).status(), 200);
    assert_eq!(decide(&config, &a, 0, &mut rl).status(), 429);
    assert_eq!(decide(&config, &b, 0, &mut rl).status(), 200);
    // A second later the first address has a token again.
    assert_eq!(decide(&config, &a, 1_000_000_000, &mut rl).status(), 200);
}

#[test]
fn report_line_for_an_allowed_request() {
    let d = Decision::Allow {
        upstream: "127.0.0.1:9000".to_string(),
        request: Request::new("GET", "localhost", "/api/widgets"),
    };
    assert_eq!(
        tollgate::pipeline::decision_line(1, 5, &d),
        "[1/5] ALLOW 200 -> 127.0.0.1:9000  (path /api/widgets)"
    );
}

#[test]
fn report_line_for_a_limited_request() {
    let d = Decision::Reject {
        status: 429,
        reason: "rate limit exceeded, retry after 1s".to_string(),
        headers: vec![("Retry-After".to_string(), "1".to_string())],
    };
    assert_eq!(
        tollgate::pipeline::decision_line(4, 5, &d),
        "[4/5] REJECT 429  reason: rate limit exceeded, retry after 1s  [Retry-After: 1]"
    );
}

#[test]
fn report_line_for_a_single_check_has_no_counter() {
    let d = Decision::Reject {
        status: 404,
        reason: "no route matches host, method, and path".to_string(),
        headers: vec![],
    };
    assert_eq!(
        tollgate::pipeline::decision_line(1, 1, &d),
        "REJECT 404  reason: no route matches host, method, and path"
    );
}

#[test]
fn report_line_joins_several_headers() {
    let d = Decision::Reject {
        status: 401,
        reason: "missing API key".to_string(),
        headers: vec![
            ("WWW-Authenticate".to_string(), "Bearer".to_string()),
            ("X-A".to_string(), "b".to_string()),
        ],
    };
    assert_eq!(
        tollgate::pipeline::decision_line(2, 3, &d),
        "[2/3] REJECT 401  reason: missing API key  [WWW-Authenticate: Bearer, X-A: b]"
    );
}

#[test]
fn dry_run_drains_the_burst_then_reports_429() {
    let config = Config::parse(
        "key demo-key\n\nroute {\n  host localhost\n  path /api/*\n  auth\n  rate 1/s burst 3\n  upstream 127.0.0.1:9000\n}\n",
    )
    .unwrap();
    let request = tollgate::pipeline::check_request(
        "GET",
        "localhost",
        "/api/widgets",
        "127.0.0.1",
        &Vec::new(),
        &Some("demo-key".to_string()),
    );
    let lines = tollgate::pipeline::dry_run(&config, &request, 5);
    assert_eq!(
        lines,
        vec![
            "[1/5] ALLOW 200 -> 127.0.0.1:9000  (path /api/widgets)",
            "[2/5] ALLOW 200 -> 127.0.0.1:9000  (path /api/widgets)",
            "[3/5] ALLOW 200 -> 127.0.0.1:9000  (path /api/widgets)",
            "[4/5] REJECT 429  reason: rate limit exceeded, retry after 1s  [Retry-After: 1]",
            "[5/5] REJECT 429  reason: rate limit exceeded, retry after 1s  [Retry-After: 1]",
        ]
    );
    assert!(tollgate::pipeline::dry_run(&config, &request, 0).is_empty());
}

#[test]
fn check_request_sets_headers_then_the_key() {
    let request = tollgate::pipeline::check_request(
        "post",
        "Api.Example.com:443",
        "/a?b=c",
        "10.0.0.1",
        &vec![("X-One".to_string(), "1".to_string()), ("x-api-key".to_string(), "old".to_string())],
        &Some("new".to_string()),
    );
    assert_eq!(request.method, "POST");
    assert_eq!(request.host, "api.example.com");
    assert_eq!(request.path, "/a");
    assert_eq!(request.query.as_deref(), Some("b=c"));
    assert_eq!(request.client_ip, "10.0.0.1");
    assert_eq!(
        request.headers,
        vec![("x-one".to_string(), "1".to_string()), ("x-api-key".to_string(), "new".to_string())]
    );
}
