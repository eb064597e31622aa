use tollgate::config::Config;
use tollgate::route::{AuthRequirement, HostMatch, MethodMatch, PathPattern};

#[test]
fn parses_keys_routes_and_shaping() {
    let text = "\
key svc scopes read,write

route {
  method POST
  host api.example.com
  path /v1/users/:id
  auth scope write
  rate 0.5/s burst 3
  upstream 10.0.0.5:8080
  strip_prefix /v1
  add_prefix /internal
  set_header X-Gateway tollgate
  add_header X-Trace abc
  remove_header X-Secret
}
";
    let config = Config::parse(text).unwrap();
    assert_eq!(config.keys.len(), 1);
    assert_eq!(config.keys[0].key, "svc");
    assert_eq!(config.keys[0].scopes, vec!["read", "write"]);

    assert_eq!(config.routes.len(), 1);
    let r = &config.routes[0];
    assert_eq!(r.method, MethodMatch::Exact("POST".into()));
    assert_eq!(r.host, HostMatch::Exact("api.example.com".into()));
    assert!(matches!(r.path, PathPattern::Param(_)));
    assert_eq!(r.auth, AuthRequirement::Key { scope: Some("write".into()) });
    let rate = r.rate.as_ref().unwrap();
    assert_eq!(rate.rate_nanos as f64 / 1e9, 0.5);
    assert_eq!(rate.burst_nanos as f64 / 1e9, 3.0);
    assert_eq!(r.upstream, "10.0.0.5:8080");
    assert_eq!(r.shaping.strip_prefix.as_deref(), Some("/v1"));
    assert_eq!(r.shaping.add_prefix.as_deref(), Some("/internal"));
    assert_eq!(r.shaping.set_headers, vec![("X-Gateway".into(), "tollgate".into())]);
    assert_eq!(r.shaping.add_headers, vec![("X-Trace".into(), "abc".into())]);
    assert_eq!(r.shaping.remove_headers, vec!["X-Secret".to_string()]);
}

#[test]
fn print_then_parse_round_trips() {
    let text = "\
key a scopes read
key b

route {
  method GET
  host h.example.com
  path /users/:id
  auth scope read
  rate 5/s burst 10
  upstream 127.0.0.1:9000
  strip_prefix /v1
  set_header X-A one
}

route {
  path /public/*
  upstream 127.0.0.1:9001
}
";
    let first = Config::parse(text).unwrap();
    let printed = first.to_text();
    let second = Config::parse(&printed).unwrap();
    assert_eq!(first, second, "printed config must parse back to an equal value");
}

#[test]
fn auth_without_scope_requires_only_a_key() {
    let text = "\
route {
  path /x
  auth
  upstream 127.0.0.1:9000
}
";
    let config = Config::parse(text).unwrap();
    assert_eq!(config.routes[0].auth, AuthRequirement::Key { scope: None });
}

#[test]
fn missing_upstream_is_an_error() {
    let text = "route {\n  path /x\n}\n";
    let err = Config::parse(text).unwrap_err();
    assert!(err.to_string().contains("upstream"), "got: {err:?}");
}

#[test]
fn missing_path_is_an_error() {
    let text = "route {\n  upstream 127.0.0.1:9000\n}\n";
    let err = Config::parse(text).unwrap_err();
    assert!(err.to_string().contains("path"), "got: {err:?}");
}

#[test]
fn unknown_directive_is_an_error() {
    let err = Config::parse("wat foo\n").unwrap_err();
    assert!(err.to_string().contains("unknown directive"), "got: {err:?}");
}

#[test]
fn comments_and_blank_lines_are_ignored() {
    let text = "\
# a comment
key k   # trailing comment

route {
  # inside the block
  path /x
  upstream 127.0.0.1:9000
}
";
    let config = Config::parse(text).unwrap();
    assert_eq!(config.keys.len(), 1);
    assert_eq!(config.routes.len(), 1);
}

// ----- further cases ----------------------------------------------------------------

#[test]
fn error_messages_name_line_and_field() {
    let err = Config::parse("key a\nroute {\n  path /x\n  upstream u\n  colour blue\n}\n").unwrap_err();
    assert_eq!(err.to_string(), "config parse error at line 5: unknown route field 'colour'");
    let err = Config::parse("route {\n  path /x\n  upstream u\n").unwrap_err();
    assert_eq!(err.to_string(), "route block #1 is missing required field 'closing '}''");
    let err = Config::parse("route\n").unwrap_err();
    assert_eq!(
        err.to_string(),
        "config parse error at line 1: expected 'route {' to open a route block"
    );
    let err = Config::parse("key a colours x\n").unwrap_err();
    assert_eq!(
        err.to_string(),
        "config parse error at line 1: expected 'scopes' after key id, found 'colours'"
    );
    let err = Config::parse("route {\n  auth maybe\n}\n").unwrap_err();
    assert_eq!(
        err.to_string(),
        "config parse error at line 0: expected 'auth' or 'auth scope <name>', found 'auth maybe'"
    );
}

#[test]
fn rate_errors() {
    let cases = [
        ("rate", "rate needs a value"),
        ("rate 5", "rate '5' must end in '/s'"),
        ("rate x/s burst 1", "rate 'x' is not a number"),
        ("rate 5/s", "rate needs 'burst <n>'"),
        ("rate 5/s bust 1", "expected 'burst', found 'bust'"),
        ("rate 5/s burst", "burst needs a value"),
        ("rate 5/s burst y", "burst 'y' is not a number"),
        ("rate -1/s burst 1", "rate and burst must be non-negative"),
    ];
    for (line, msg) in cases {
        let text = format!("route {{\n  path /x\n  {line}\n  upstream u\n}}\n");
        let err = Config::parse(&text).unwrap_err();
        assert_eq!(err.to_string(), format!("config parse error at line 3: {msg}"));
    }
}

#[test]
fn fractional_rates_print_and_parse_exactly() {
    let text = "route {\n  path /x\n  rate 0.125/s burst 2.5\n  upstream u\n}\n";
    let config = Config::parse(text).unwrap();
    let rate = config.routes[0].rate.unwrap();
    assert_eq!(rate.rate_nanos, 125_000_000);
    assert_eq!(rate.burst_nanos, 2_500_000_000);
    let printed = config.to_text();
    assert!(printed.contains("  rate 0.125/s burst 2.5\n"), "got: {printed}");
    assert_eq!(Config::parse(&printed).unwrap(), config);
}

#[test]
fn printer_output_shape() {
    let text = "key a scopes x, y ,\nroute {\n  host *\n  path /p/*\n  auth\n  upstream u\n  remove_header X\n  add_header A b c\n}\n";
    let config = Config::parse(text).unwrap();
    assert_eq!(config.keys[0].scopes, vec!["x", "y"]);
    assert_eq!(config.routes[0].host, HostMatch::Any);
    assert_eq!(
        config.to_text(),
        "key a scopes x,y\n\nroute {\n  path /p/*\n  auth\n  upstream u\n  remove_header X\n  add_header A b c\n}\n\n"
    );
}

#[test]
fn round_trip_keeps_empty_values_and_normalised_names() {
    let text = "# edge cases\nroute {\n  method get\n  host API.Example.com\n  path /a/:b\n  auth scope\n  upstream\n  strip_prefix\n  set_header X-Empty\n  add_header X-Two a  b # trailing comment\n}\nkey k1\n";
    let first = Config::parse(text).unwrap();
    assert_eq!(first.routes[0].method, MethodMatch::Exact("GET".to_string()));
    assert_eq!(first.routes[0].host, HostMatch::Exact("api.example.com".to_string()));
    assert_eq!(first.routes[0].upstream, "");
    assert_eq!(first.routes[0].shaping.strip_prefix, Some(String::new()));
    assert_eq!(first.routes[0].shaping.set_headers, vec![("X-Empty".to_string(), String::new())]);
    assert_eq!(first.routes[0].shaping.add_headers, vec![("X-Two".to_string(), "a  b".to_string())]);
    let printed = first.to_text();
    let second = Config::parse(&printed).unwrap();
    assert_eq!(first, second);
    assert_eq!(second.to_text(), printed);
}
