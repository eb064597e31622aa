use tollgate::request::normalize_host;
use tollgate::Request;

#[test]
fn new_normalizes_method_host_and_target() {
    let r = Request::new("get", "  API.Example.com:8443 ", "/a/b?x=1&y=2");
    assert_eq!(r.method, "GET");
    assert_eq!(r.host, "api.example.com");
    assert_eq!(r.path, "/a/b");
    assert_eq!(r.query.as_deref(), Some("x=1&y=2"));
    assert_eq!(r.client_ip, "0.0.0.0");
    assert!(r.headers.is_empty() && r.body.is_empty());
}

#[test]
fn headers_read_back_case_insensitively() {
    let mut r = Request::new("GET", "h", "/").with_header("X-One", "1");
    assert_eq!(r.header("x-one"), Some("1"));
    assert_eq!(r.header("X-ONE"), Some("1"));
    r.set_header("x-ONE", "2");
    assert_eq!(r.headers, vec![("x-one".to_string(), "2".to_string())]);
    r.set_header("X-Two", "t");
    r.remove_header("X-ONE");
    assert_eq!(r.header("x-one"), None);
    assert_eq!(r.header("x-two"), Some("t"));
}

#[test]
fn host_normalization() {
    assert_eq!(normalize_host("Example.COM"), "example.com");
    assert_eq!(normalize_host(" example.com:80 "), "example.com");
    assert_eq!(normalize_host(""), "");
}

#[test]
fn bracketed_ipv6_hosts_keep_their_address() {
    assert_eq!(normalize_host("[::1]:8080"), "[::1]");
    assert_eq!(normalize_host(" [FE80::1] "), "[fe80::1]");
    assert_eq!(normalize_host("[::1]"), "[::1]");
    // Without a closing bracket the host is cut at its first colon.
    assert_eq!(normalize_host("[::1"), "[");
}
