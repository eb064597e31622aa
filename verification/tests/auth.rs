use tollgate::auth::{authenticate, extract_key, AuthOutcome, Principal};
use tollgate::config::{ApiKey, Config};
use tollgate::route::AuthRequirement;
use tollgate::Request;

fn config() -> Config {
    Config {
        routes: Vec::new(),
        keys: vec![
            ApiKey { key: "k-read".into(), scopes: vec!["read".into()] },
            ApiKey { key: "k-admin".into(), scopes: vec!["read".into(), "write".into()] },
        ],
    }
}

#[test]
fn extracts_from_x_api_key() {
    let req = Request::new("GET", "h", "/").with_header("X-API-Key", "abc");
    assert_eq!(extract_key(&req).as_deref(), Some("abc"));
}

#[test]
fn extracts_from_bearer() {
    let req = Request::new("GET", "h", "/").with_header("Authorization", "Bearer xyz");
    assert_eq!(extract_key(&req).as_deref(), Some("xyz"));
}

#[test]
fn no_requirement_is_anonymous() {
    let req = Request::new("GET", "h", "/");
    assert_eq!(
        authenticate(&config(), &req, &AuthRequirement::Anonymous),
        AuthOutcome::Authorized(Principal::Anonymous)
    );
}

#[test]
fn missing_key_is_unauthorized() {
    let req = Request::new("GET", "h", "/");
    let out = authenticate(&config(), &req, &AuthRequirement::Key { scope: None });
    assert!(matches!(out, AuthOutcome::Unauthorized(_)));
}

#[test]
fn unknown_key_is_unauthorized() {
    let req = Request::new("GET", "h", "/").with_header("X-API-Key", "nope");
    let out = authenticate(&config(), &req, &AuthRequirement::Key { scope: None });
    assert!(matches!(out, AuthOutcome::Unauthorized(_)));
}

#[test]
fn known_key_wrong_scope_is_forbidden() {
    let req = Request::new("GET", "h", "/").with_header("X-API-Key", "k-read");
    let out = authenticate(
        &config(),
        &req,
        &AuthRequirement::Key { scope: Some("write".into()) },
    );
    assert!(matches!(out, AuthOutcome::Forbidden(_)));
}

#[test]
fn correct_key_and_scope_is_ok() {
    let req = Request::new("GET", "h", "/").with_header("X-API-Key", "k-admin");
    let out = authenticate(
        &config(),
        &req,
        &AuthRequirement::Key { scope: Some("write".into()) },
    );
    assert_eq!(out, AuthOutcome::Authorized(Principal::Key("k-admin".into())));
}

// ----- further cases ----------------------------------------------------------------

#[test]
fn lowercase_bearer_and_blank_keys() {
    let req = Request::new("GET", "h", "/").with_header("authorization", "bearer  tok  ");
    assert_eq!(extract_key(&req).as_deref(), Some("tok"));
    // A blank X-API-Key falls back to the bearer token.
    let req = Request::new("GET", "h", "/")
        .with_header("X-API-Key", "   ")
        .with_header("Authorization", "Bearer b");
    assert_eq!(extract_key(&req).as_deref(), Some("b"));
    let req = Request::new("GET", "h", "/").with_header("Authorization", "Basic xyz");
    assert_eq!(extract_key(&req), None);
    let req = Request::new("GET", "h", "/").with_header("Authorization", "Bearer   ");
    assert_eq!(extract_key(&req), None);
}

#[test]
fn rejection_reasons_are_explicit() {
    let req = Request::new("GET", "h", "/");
    assert_eq!(
        authenticate(&config(), &req, &AuthRequirement::Key { scope: None }),
        AuthOutcome::Unauthorized("missing api key".into())
    );
    let req = req.with_header("X-API-Key", "nope");
    assert_eq!(
        authenticate(&config(), &req, &AuthRequirement::Key { scope: None }),
        AuthOutcome::Unauthorized("unknown api key".into())
    );
    let req = Request::new("GET", "h", "/").with_header("X-API-Key", "k-read");
    assert_eq!(
        authenticate(&config(), &req, &AuthRequirement::Key { scope: Some("write".into()) }),
        AuthOutcome::Forbidden("key lacks required scope 'write'".into())
    );
}
