use vstd::prelude::*;

use crate::config::{keys_view, ApiKeyView, Config, ConfigView};
use crate::request::{header_value, Request, RequestView};
use crate::route::{AuthRequirement, AuthV};
use crate::text::{
    chars_of, concat, first_where, lemma_first_where, lemma_first_where_is, slice_of, starts_with,
    starts_with_chars, string_of, trim, trim_chars,
};

verus! {

/// The identity a request carries once auth has run. `Anonymous` means the
/// route did not require a key, so rate limiting later falls back to the IP.
#[derive(Debug, Clone, PartialEq, Eq)]
pub enum Principal {
    Anonymous,
    Key(String),
}

/// Outcome of the auth stage. A rejection names exactly why: missing/unknown key
/// is a 401, a known key without the required scope is a 403.
#[derive(Debug, Clone, PartialEq, Eq)]
pub enum AuthOutcome {
    Authorized(Principal),
    Unauthorized(String),
    Forbidden(String),
}

pub enum PrincipalV {
    Anonymous,
    Key(Seq<char>),
}

pub enum AuthOutcomeV {
    Authorized(PrincipalV),
    Unauthorized(Seq<char>),
    Forbidden(Seq<char>),
}

impl View for Principal {
    type V = PrincipalV;

    open spec fn view(&self) -> PrincipalV {
        match self {
            Principal::Anonymous => PrincipalV::Anonymous,
            Principal::Key(k) => PrincipalV::Key(k@),
        }
    }
}

impl View for AuthOutcome {
    type V = AuthOutcomeV;

    open spec fn view(&self) -> AuthOutcomeV {
        match self {
            AuthOutcome::Authorized(p) => AuthOutcomeV::Authorized(p@),
            AuthOutcome::Unauthorized(r) => AuthOutcomeV::Unauthorized(r@),
            AuthOutcome::Forbidden(r) => AuthOutcomeV::Forbidden(r@),
        }
    }
}

// ----- specification -------------------------------------------------------------

/// The key carried by a `Bearer` (or `bearer`) authorization value, trimmed.
pub open spec fn bearer_key(auth: Seq<char>) -> Option<Seq<char>> {
    if starts_with(auth, "Bearer "@) {
        Some(trim(auth.skip("Bearer "@.len() as int)))
    } else if starts_with(auth, "bearer "@) {
        Some(trim(auth.skip("bearer "@.len() as int)))
    } else {
        None
    }
}

/// The presented key: a non-blank `X-API-Key`, else a non-blank bearer token.
pub open spec fn presented_key(hs: Seq<(Seq<char>, Seq<char>)>) -> Option<Seq<char>> {
    let from_header = match header_value(hs, "x-api-key"@) {
        Some(v) => if trim(v).len() > 0 {
            Some(trim(v))
        } else {
            None
        },
        None => None,
    };
    if from_header is Some {
        from_header
    } else {
        match header_value(hs, "authorization"@) {
            Some(a) => match bearer_key(a) {
                Some(k) => if k.len() > 0 {
                    Some(k)
                } else {
                    None
                },
                None => None,
            },
            None => None,
        }
    }
}

pub open spec fn key_is(k: Seq<char>) -> spec_fn(ApiKeyView) -> bool {
    |a: ApiKeyView| a.key == k
}

/// Position of the first configured key equal to `k`, or the number of keys.
pub open spec fn key_index(keys: Seq<ApiKeyView>, k: Seq<char>) -> int {
    first_where(keys, key_is(k))
}

pub open spec fn scope_message(scope: Seq<char>) -> Seq<char> {
    "key lacks required scope '"@ + scope + "'"@
}

/// What the auth stage concludes for a route requirement.
pub open spec fn auth_result(config: ConfigView, req: RequestView, requirement: AuthV) -> AuthOutcomeV {
    match requirement {
        AuthV::Anonymous => AuthOutcomeV::Authorized(PrincipalV::Anonymous),
        AuthV::Key(scope) => match presented_key(req.headers) {
            None => AuthOutcomeV::Unauthorized("missing api key"@),
            Some(k) => {
                let i = key_index(config.keys, k);
                if i >= config.keys.len() {
                    AuthOutcomeV::Unauthorized("unknown api key"@)
                } else {
                    match scope {
                        Some(s) => if config.keys[i].scopes.contains(s) {
                            AuthOutcomeV::Authorized(PrincipalV::Key(config.keys[i].key))
                        } else {
                            AuthOutcomeV::Forbidden(scope_message(s))
                        },
                        None => AuthOutcomeV::Authorized(PrincipalV::Key(config.keys[i].key)),
                    }
                }
            },
        },
    }
}

// ----- implementation --------------------------------------------------------------

fn bearer_key_of(auth: &str) -> (r: Option<Vec<char>>)
    ensures
        match r {
            Some(v) => bearer_key(auth@) == Some(v@),
            None => bearer_key(auth@) is None,
        },
{
    let a = chars_of(auth);
    let upper = chars_of("Bearer ");
    let lower = chars_of("bearer ");
    if starts_with_chars(&a, &upper) {
        Some(trim_chars(&slice_of(&a, upper.len(), a.len())))
    } else if starts_with_chars(&a, &lower) {
        Some(trim_chars(&slice_of(&a, lower.len(), a.len())))
    } else {
        None
    }
}

/// Pull the presented key from `X-API-Key` or an `Authorization: Bearer <key>`.
pub fn extract_key(req: &Request) -> (r: Option<String>)
    ensures
        match r {
            Some(k) => presented_key(req@.headers) == Some(k@),
            None => presented_key(req@.headers) is None,
        },
{
    if let Some(k) = req.header("x-api-key") {
        let t = trim_chars(&chars_of(k));
        if t.len() > 0 {
            return Some(string_of(&t));
        }
    }
    if let Some(auth) = req.header("authorization") {
        if let Some(rest) = bearer_key_of(auth) {
            if rest.len() > 0 {
                return Some(string_of(&rest));
            }
        }
    }
    None
}

fn has_scope(scopes: &Vec<String>, s: &String) -> (b: bool)
    ensures
        b == crate::route::strings_view(scopes@).contains(s@),
{
    let ghost sv = crate::route::strings_view(scopes@);
    let mut i: usize = 0;
    while i < scopes.len()
        invariant
            sv == crate::route::strings_view(scopes@),
            i <= scopes.len(),
            forall|j: int| 0 <= j < i ==> sv[j] != s@,
        decreases scopes.len() - i,
    {
        if scopes[i] == *s {
            assert(sv[i as int] == s@);
            return true;
        }
        i = i + 1;
    }
    false
}

/// Apply a route's auth requirement to a request against the configured key set.
pub fn authenticate(config: &Config, req: &Request, requirement: &AuthRequirement) -> (r: AuthOutcome)
    ensures
        r@ == auth_result(config@, req@, requirement@),
{
    let scope = match requirement {
        AuthRequirement::Anonymous => return AuthOutcome::Authorized(Principal::Anonymous),
        AuthRequirement::Key { scope } => scope,
    };
    let presented = match extract_key(req) {
        Some(k) => k,
        None => return AuthOutcome::Unauthorized(String::from_str("missing api key")),
    };
    let ghost kv = keys_view(config.keys@);
    let mut i: usize = 0;
    while i < config.keys.len() && !(config.keys[i].key == presented)
        invariant
            kv == keys_view(config.keys@),
            i <= config.keys.len(),
            forall|j: int| 0 <= j < i ==> !key_is(presented@)(#[trigger] kv[j]),
        decreases config.keys.len() - i,
    {
        assert(kv[i as int] == config.keys@[i as int]@);
        i = i + 1;
    }
    proof {
        if i < config.keys.len() {
            assert(kv[i as int] == config.keys@[i as int]@);
        }
        lemma_first_where_is(kv, key_is(presented@), i as int);
    }
    if i >= config.keys.len() {
        return AuthOutcome::Unauthorized(String::from_str("unknown api key"));
    }
    let key = &config.keys[i];
    assert(kv[i as int] == key@);
    if let Some(required) = scope {
        if !has_scope(&key.scopes, required) {
            let head = chars_of("key lacks required scope '");
            let tail = chars_of("'");
            let msg = concat(&concat(&head, &chars_of(required.as_str())), &tail);
            return AuthOutcome::Forbidden(string_of(&msg));
        }
    }
    AuthOutcome::Authorized(Principal::Key(key.key.clone()))
}

// ----- laws ------------------------------------------------------------------

/// `X-API-Key` comes first: when it holds a non-blank value, that value, trimmed,
/// is the presented key, whatever `Authorization` holds.
pub proof fn law_api_key_header_first(hs: Seq<(Seq<char>, Seq<char>)>, v: Seq<char>)
    requires
        header_value(hs, "x-api-key"@) == Some(v),
        trim(v).len() > 0,
    ensures
        presented_key(hs) == Some(trim(v)),
{
}

/// A bearer token counts only when `X-API-Key` is absent or blank: then a
/// non-blank `Bearer <key>` (or `bearer <key>`) gives its trimmed key.
pub proof fn law_bearer_when_no_api_key(hs: Seq<(Seq<char>, Seq<char>)>, tail: Seq<char>)
    requires
        header_value(hs, "x-api-key"@) matches Some(v) ==> trim(v).len() == 0,
        header_value(hs, "authorization"@) == Some("Bearer "@ + tail),
        trim(tail).len() > 0,
    ensures
        presented_key(hs) == Some(trim(tail)),
{
    reveal_strlit("Bearer ");
    let a = "Bearer "@ + tail;
    assert(a.take(7) =~= "Bearer "@);
    assert(a.skip(7) =~= tail);
}

/// On a route that needs any key, a request whose `X-API-Key` names a configured
/// key is let through as that key, whatever `Authorization` holds.
pub proof fn law_configured_api_key_authorizes(config: ConfigView, req: RequestView, v: Seq<char>, i: int)
    requires
        header_value(req.headers, "x-api-key"@) == Some(v),
        trim(v).len() > 0,
        0 <= i < config.keys.len(),
        config.keys[i].key == trim(v),
    ensures
        auth_result(config, req, AuthV::Key(None)) == AuthOutcomeV::Authorized(PrincipalV::Key(trim(v))),
{
    let k = trim(v);
    lemma_first_where(config.keys, key_is(k));
    assert(key_is(k)(config.keys[i]));
    let j = key_index(config.keys, k);
    assert(key_is(k)(config.keys[j]));
}

} // verus!
