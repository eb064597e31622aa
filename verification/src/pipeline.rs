use vstd::prelude::*;

use crate::auth::{
    auth_result, authenticate, key_index, key_is, presented_key, AuthOutcome, AuthOutcomeV, Principal,
    PrincipalV,
};
use crate::config::{Config, ConfigView};
use crate::ratelimit::{
    charge_outcome, charge_state, law_buckets_isolated, Bucket, RateLimiter, RateOutcome,
};
use crate::request::{
    host_normal, opt_view, pairs_view, target_path, target_query, Headers, Request, RequestView,
};
use crate::route::{RateLimit, chosen_route, lemma_chosen_route, match_route_index, routes_view, strings_view};
use crate::shape::{set_all, shape_request, shaped};
use crate::text::{chars_of, concat, decimal, decimal_chars, lemma_first_where, string_of, upper_seq};

verus! {

/// The single verdict the pipeline produces for a request. Every variant carries
/// its reason: an Allow names the upstream and the request as shaped for it, a
/// Reject names the status, a human reason, and the response headers to send.
#[derive(Debug, Clone, PartialEq, Eq)]
pub enum Decision {
    Allow { upstream: String, request: Request },
    Reject { status: u16, reason: String, headers: Vec<(String, String)> },
}

pub enum DecisionV {
    Allow { upstream: Seq<char>, request: RequestView },
    Reject { status: u16, reason: Seq<char>, headers: Headers },
}

impl View for Decision {
    type V = DecisionV;

    open spec fn view(&self) -> DecisionV {
        match self {
            Decision::Allow { upstream, request } => DecisionV::Allow {
                upstream: upstream@,
                request: request@,
            },
            Decision::Reject { status, reason, headers } => DecisionV::Reject {
                status: *status,
                reason: reason@,
                headers: pairs_view(headers@),
            },
        }
    }
}

pub open spec fn status_of(d: DecisionV) -> u16 {
    match d {
        DecisionV::Allow { .. } => 200,
        DecisionV::Reject { status, .. } => status,
    }
}

pub open spec fn reason_of(d: DecisionV) -> Seq<char> {
    match d {
        DecisionV::Allow { .. } => "allowed"@,
        DecisionV::Reject { reason, .. } => reason,
    }
}

impl Decision {
    pub fn status(&self) -> (s: u16)
        ensures
            s == status_of(self@),
    {
        match self {
            Decision::Allow { .. } => 200,
            Decision::Reject { status, .. } => *status,
        }
    }

    pub fn reason(&self) -> (r: &str)
        ensures
            r@ == reason_of(self@),
    {
        match self {
            Decision::Allow { .. } => "allowed",
            Decision::Reject { reason, .. } => reason.as_str(),
        }
    }
}

// ----- specification -------------------------------------------------------------

pub open spec fn not_found_reason() -> Seq<char> {
    "no route matches host, method, and path"@
}

pub open spec fn challenge_headers() -> Headers {
    seq![("WWW-Authenticate"@, "Bearer realm=\"tollgate\""@)]
}

/// The bucket a request is charged to: its key, or its client address when anonymous.
pub open spec fn bucket_key(p: PrincipalV, req: RequestView) -> Seq<char> {
    match p {
        PrincipalV::Key(k) => "key:"@ + k,
        PrincipalV::Anonymous => "ip:"@ + req.client_ip,
    }
}

pub open spec fn limited_reason(secs: u64) -> Seq<char> {
    "rate limit exceeded, retry after "@ + decimal(secs as nat) + "s"@
}

pub open spec fn limited_headers(secs: u64) -> Headers {
    seq![("Retry-After"@, decimal(secs as nat))]
}

/// The whole policy: route, then auth, then rate limit, then shape; the first
/// stage that rejects decides. Returns the decision and the bucket store after it.
pub open spec fn decision(
    config: ConfigView,
    req: RequestView,
    now: u64,
    m: Map<Seq<char>, Bucket>,
) -> (DecisionV, Map<Seq<char>, Bucket>) {
    match chosen_route(config.routes, req) {
        None => (DecisionV::Reject { status: 404, reason: not_found_reason(), headers: Seq::empty() }, m),
        Some(i) => {
            let route = config.routes[i];
            match auth_result(config, req, route.auth) {
                AuthOutcomeV::Unauthorized(reason) => (
                    DecisionV::Reject { status: 401, reason, headers: challenge_headers() },
                    m,
                ),
                AuthOutcomeV::Forbidden(reason) => (
                    DecisionV::Reject { status: 403, reason, headers: Seq::empty() },
                    m,
                ),
                AuthOutcomeV::Authorized(p) => {
                    let allow = DecisionV::Allow {
                        upstream: route.upstream,
                        request: shaped(req, route.shaping),
                    };
                    match route.rate {
                        None => (allow, m),
                        Some(limit) => {
                            let key = bucket_key(p, req);
                            let m2 = charge_state(m, key, limit, now);
                            match charge_outcome(m, key, limit, now) {
                                RateOutcome::Allowed => (allow, m2),
                                RateOutcome::Limited { retry_after } => (
                                    DecisionV::Reject {
                                        status: 429,
                                        reason: limited_reason(retry_after),
                                        headers: limited_headers(retry_after),
                                    },
                                    m2,
                                ),
                            }
                        },
                    }
                },
            }
        },
    }
}

// ----- implementation --------------------------------------------------------------

fn pair(a: &str, b: &str) -> (r: (String, String))
    ensures
        r.0@ == a@,
        r.1@ == b@,
{
    (String::from_str(a), String::from_str(b))
}

/// The whole policy, as one pure function over (config, request, clock, buckets).
///
/// The only mutable state is the rate limiter, and time only enters through
/// `now` (nanoseconds). Given the same inputs it always returns the same
/// decision, which is what lets every stage be unit-tested without a socket or a
/// real clock.
///
/// Stages run in order and short-circuit on the first rejection:
/// route -> auth -> rate limit -> shape -> allow.
pub fn decide(config: &Config, req: &Request, now: u64, limiter: &mut RateLimiter) -> (d: Decision)
    ensures
        (d@, final(limiter)@) == decision(config@, req@, now, old(limiter)@),
{
    // 1. Routing.
    let idx = match_route_index(config.routes.as_slice(), req);
    proof {
        lemma_chosen_route(routes_view(config.routes@), req@, match idx {
            Some(i) => Some(i as int),
            None => None,
        });
    }
    let i = match idx {
        Some(i) => i,
        None => {
            let d = Decision::Reject {
                status: 404,
                reason: String::from_str("no route matches host, method, and path"),
                headers: Vec::new(),
            };
            assert(pairs_view(Seq::<(String, String)>::empty()) =~= Seq::<(Seq<char>, Seq<char>)>::empty());
            return d;
        },
    };
    let route = &config.routes[i];
    assert(config@.routes[i as int] == route@);

    // 2. Auth.
    let principal = match authenticate(config, req, &route.auth) {
        AuthOutcome::Authorized(p) => p,
        AuthOutcome::Unauthorized(reason) => {
            let mut headers: Vec<(String, String)> = Vec::new();
            headers.push(pair("WWW-Authenticate", "Bearer realm=\"tollgate\""));
            assert(pairs_view(headers@) =~= challenge_headers());
            return Decision::Reject { status: 401, reason, headers };
        },
        AuthOutcome::Forbidden(reason) => {
            let d = Decision::Reject { status: 403, reason, headers: Vec::new() };
            assert(pairs_view(Seq::<(String, String)>::empty()) =~= Seq::<(Seq<char>, Seq<char>)>::empty());
            return d;
        },
    };

    // 3. Rate limit. Keyed by the authenticated key, or the client IP when anon.
    if let Some(limit) = &route.rate {
        let key_chars = match &principal {
            Principal::Key(k) => concat(&chars_of("key:"), &chars_of(k.as_str())),
            Principal::Anonymous => concat(&chars_of("ip:"), &chars_of(req.client_ip.as_str())),
        };
        let key = string_of(&key_chars);
        if let RateOutcome::Limited { retry_after } = limiter.check(key.as_str(), limit, now) {
            let digits = decimal_chars(retry_after);
            let reason = concat(&concat(&chars_of("rate limit exceeded, retry after "), &digits), &chars_of("s"));
            let mut headers: Vec<(String, String)> = Vec::new();
            headers.push((String::from_str("Retry-After"), string_of(&digits)));
            assert(pairs_view(headers@) =~= limited_headers(retry_after));
            return Decision::Reject { status: 429, reason: string_of(&reason), headers };
        }
    }

    // 4. Shaping, then allow.
    let shaped_req = shape_request(req.copy_of(), &route.shaping);
    Decision::Allow { upstream: route.upstream.clone(), request: shaped_req }
}


// ----- laws ------------------------------------------------------------------------

/// A request rejected by routing or auth (404, 401, 403) never touches a bucket:
/// auth runs before rate limiting, so an unauthorized request consumes no token.
pub proof fn law_early_rejections_keep_buckets(config: ConfigView, req: RequestView, now: u64, m: Map<Seq<char>, Bucket>)
    ensures
        ({
            let s = status_of(decision(config, req, now, m).0);
            s == 404 || s == 401 || s == 403
        }) ==> decision(config, req, now, m).1 == m,
{
}

/// Every rejection says why: a 404 is no route, a 401 is a missing or unknown key
/// and carries the `WWW-Authenticate` challenge, a 403 is a known key lacking the
/// route's scope, and a 429 advertises in `Retry-After` the seconds its reason names.
/// The only statuses are 200, 401, 403, 404 and 429.
pub proof fn law_rejections_explained(config: ConfigView, req: RequestView, now: u64, m: Map<Seq<char>, Bucket>)
    ensures
        ({
            let d = decision(config, req, now, m).0;
            &&& status_of(d) == 404 <==> chosen_route(config.routes, req) is None
            &&& status_of(d) == 401 ==> d->Reject_headers == challenge_headers() && auth_result(
                config,
                req,
                config.routes[chosen_route(config.routes, req)->0].auth,
            ) is Unauthorized
            &&& status_of(d) == 403 ==> auth_result(
                config,
                req,
                config.routes[chosen_route(config.routes, req)->0].auth,
            ) is Forbidden
            &&& status_of(d) == 429 ==> exists|secs: u64|
                d->Reject_headers == limited_headers(secs) && d->Reject_reason == limited_reason(secs)
            &&& d is Allow <==> status_of(d) == 200
            &&& status_of(d) == 200 || status_of(d) == 401 || status_of(d) == 403 || status_of(d)
                == 404 || status_of(d) == 429
        }),
{
    let d = decision(config, req, now, m).0;
    match chosen_route(config.routes, req) {
        None => {},
        Some(i) => {
            let route = config.routes[i];
            match auth_result(config, req, route.auth) {
                AuthOutcomeV::Authorized(p) => {
                    match route.rate {
                        None => {},
                        Some(limit) => {
                            let key = bucket_key(p, req);
                            match charge_outcome(m, key, limit, now) {
                                RateOutcome::Allowed => {},
                                RateOutcome::Limited { retry_after } => {
                                    assert(d->Reject_headers == limited_headers(retry_after));
                                },
                            }
                        },
                    }
                },
                _ => {},
            }
        },
    }
}

/// An allowed request went to the chosen route's upstream, passed its auth, and is
/// forwarded exactly as that route's shaping rewrites it.
pub proof fn law_allow_is_routed_and_shaped(config: ConfigView, req: RequestView, now: u64, m: Map<Seq<char>, Bucket>)
    ensures
        decision(config, req, now, m).0 is Allow ==> {
            let i = chosen_route(config.routes, req)->0;
            &&& chosen_route(config.routes, req) is Some
            &&& auth_result(config, req, config.routes[i].auth) is Authorized
            &&& decision(config, req, now, m).0 == (DecisionV::Allow {
                upstream: config.routes[i].upstream,
                request: shaped(req, config.routes[i].shaping),
            })
        },
{
}

/// A decision charges no bucket but the caller's own: the one of its client
/// address or of the key it presents. Every other caller's bucket stays as it was.
pub proof fn law_other_callers_untouched(
    config: ConfigView,
    req: RequestView,
    now: u64,
    m: Map<Seq<char>, Bucket>,
    other: Seq<char>,
)
    requires
        other != "ip:"@ + req.client_ip,
        presented_key(req.headers) matches Some(k) ==> other != "key:"@ + k,
    ensures
        decision(config, req, now, m).1.contains_key(other) == m.contains_key(other),
        m.contains_key(other) ==> decision(config, req, now, m).1[other] == m[other],
{
    if let Some(i) = chosen_route(config.routes, req) {
        let route = config.routes[i];
        if let AuthOutcomeV::Authorized(p) = auth_result(config, req, route.auth) {
            if let Some(limit) = route.rate {
                let key = bucket_key(p, req);
                if let PrincipalV::Key(kk) = p {
                    let pk = presented_key(req.headers)->0;
                    lemma_first_where(config.keys, key_is(pk));
                    assert(key_is(pk)(config.keys[key_index(config.keys, pk)]));
                    assert(kk == pk);
                }
                law_buckets_isolated(m, key, limit, now, other);
            }
        }
    }
}

/// A 429 advertises exactly the wait the rate limiter computed for the request's
/// own bucket: when the chosen route has a limit, the caller passed auth as `p`,
/// and charging `p`'s bucket is limited with `secs`, the decision is a 429 whose
/// reason names `secs` seconds and whose `Retry-After` is `secs`.
pub proof fn law_limited_advertises_the_wait(
    config: ConfigView,
    req: RequestView,
    now: u64,
    m: Map<Seq<char>, Bucket>,
    i: int,
    p: PrincipalV,
    limit: RateLimit,
    secs: u64,
)
    requires
        chosen_route(config.routes, req) == Some(i),
        auth_result(config, req, config.routes[i].auth) == AuthOutcomeV::Authorized(p),
        config.routes[i].rate == Some(limit),
        charge_outcome(m, bucket_key(p, req), limit, now) == (RateOutcome::Limited { retry_after: secs }),
    ensures
        decision(config, req, now, m).0 == (DecisionV::Reject {
            status: 429,
            reason: "rate limit exceeded, retry after "@ + decimal(secs as nat) + "s"@,
            headers: seq![("Retry-After"@, decimal(secs as nat))],
        }),
{
}

// ----- describing a decision ---------------------------------------------------------

pub open spec fn header_text(h: (Seq<char>, Seq<char>)) -> Seq<char> {
    h.0 + ": "@ + h.1
}

/// The response headers as `name: value` items joined by `, `.
pub open spec fn headers_text(hs: Headers) -> Seq<char>
    decreases hs.len(),
{
    if hs.len() == 0 {
        Seq::empty()
    } else if hs.len() == 1 {
        header_text(hs[0])
    } else {
        headers_text(hs.drop_last()) + ", "@ + header_text(hs.last())
    }
}

/// `[n/total] ` before each line of a repeated check, nothing for a single one.
pub open spec fn progress_prefix(n: u32, total: u32) -> Seq<char> {
    if total > 1 {
        "["@ + decimal(n as nat) + "/"@ + decimal(total as nat) + "] "@
    } else {
        Seq::empty()
    }
}

/// One line of the dry-run report: the verdict, its status and reason, and the
/// rejection headers in brackets when there are any.
pub open spec fn decision_text(n: u32, total: u32, d: DecisionV) -> Seq<char> {
    progress_prefix(n, total) + match d {
        DecisionV::Allow { upstream, request } => "ALLOW 200 -> "@ + upstream + "  (path "@ + request.path
            + ")"@,
        DecisionV::Reject { status, reason, headers } => "REJECT "@ + decimal(status as nat) + "  reason: "@
            + reason + if headers.len() == 0 {
            Seq::empty()
        } else {
            "  ["@ + headers_text(headers) + "]"@
        },
    }
}

fn headers_chars(hs: &Vec<(String, String)>) -> (r: Vec<char>)
    ensures
        r@ == headers_text(pairs_view(hs@)),
{
    let ghost all = pairs_view(hs@);
    let mut r: Vec<char> = Vec::new();
    let mut i: usize = 0;
    while i < hs.len()
        invariant
            i <= hs.len(),
            all == pairs_view(hs@),
            r@ == headers_text(all.take(i as int)),
        decreases hs.len() - i,
    {
        let (name, value) = &hs[i];
        let ghost before = r@;
        if i > 0 {
            r = concat(&r, &chars_of(", "));
        }
        r = concat(&r, &chars_of(name.as_str()));
        r = concat(&r, &chars_of(": "));
        r = concat(&r, &chars_of(value.as_str()));
        proof {
            let t = all.take(i + 1);
            assert(t.drop_last() =~= all.take(i as int));
            assert(t.last() == all[i as int]);
            assert(all[i as int] == (name@, value@));
            if i == 0 {
                assert(before =~= Seq::<char>::empty());
                assert(r@ =~= header_text(t[0]));
            } else {
                assert(r@ =~= headers_text(t.drop_last()) + ", "@ + header_text(t.last()));
            }
        }
        i = i + 1;
    }
    assert(all.take(hs.len() as int) =~= all);
    r
}

/// The dry-run report line for the `n`-th of `total` checks.
pub fn decision_line(n: u32, total: u32, d: &Decision) -> (s: String)
    ensures
        s@ == decision_text(n, total, d@),
{
    let mut out: Vec<char> = Vec::new();
    if total > 1 {
        out = concat(&out, &chars_of("["));
        out = concat(&out, &decimal_chars(n as u64));
        out = concat(&out, &chars_of("/"));
        out = concat(&out, &decimal_chars(total as u64));
        out = concat(&out, &chars_of("] "));
    }
    let ghost prefix = out@;
    assert(prefix =~= progress_prefix(n, total));
    match d {
        Decision::Allow { upstream, request } => {
            out = concat(&out, &chars_of("ALLOW 200 -> "));
            out = concat(&out, &chars_of(upstream.as_str()));
            out = concat(&out, &chars_of("  (path "));
            out = concat(&out, &chars_of(request.path.as_str()));
            out = concat(&out, &chars_of(")"));
            assert(out@ =~= prefix + ("ALLOW 200 -> "@ + upstream@ + "  (path "@ + request.path@ + ")"@));
        },
        Decision::Reject { status, reason, headers } => {
            out = concat(&out, &chars_of("REJECT "));
            out = concat(&out, &decimal_chars(*status as u64));
            out = concat(&out, &chars_of("  reason: "));
            out = concat(&out, &chars_of(reason.as_str()));
            let ghost mid = out@;
            if headers.len() > 0 {
                out = concat(&out, &chars_of("  ["));
                out = concat(&out, &headers_chars(headers));
                out = concat(&out, &chars_of("]"));
                assert(out@ =~= mid + ("  ["@ + headers_text(pairs_view(headers@)) + "]"@));
            } else {
                assert(out@ =~= mid + Seq::<char>::empty());
            }
            assert(out@ =~= prefix + ("REJECT "@ + decimal(*status as nat) + "  reason: "@ + reason@ + if headers@.len()
                == 0 {
                Seq::<char>::empty()
            } else {
                "  ["@ + headers_text(pairs_view(headers@)) + "]"@
            }));
        },
    }
    string_of(&out)
}

// ----- the dry run -------------------------------------------------------------------

/// The request the dry run sends: `Request::new`, the client address, each given
/// header set in turn, then the key as `X-API-Key` when there is one.
pub open spec fn check_request_view(
    method: Seq<char>,
    host: Seq<char>,
    path: Seq<char>,
    ip: Seq<char>,
    headers: Headers,
    key: Option<Seq<char>>,
) -> RequestView {
    let with_key = match key {
        Some(k) => headers.push(("X-API-Key"@, k)),
        None => headers,
    };
    RequestView {
        method: upper_seq(method),
        host: host_normal(host),
        path: target_path(path),
        query: target_query(path),
        headers: set_all(Seq::empty(), with_key),
        body: Seq::empty(),
        client_ip: ip,
    }
}

/// Builds the dry-run request from its parts.
pub fn check_request(
    method: &str,
    host: &str,
    path: &str,
    ip: &str,
    headers: &Vec<(String, String)>,
    key: &Option<String>,
) -> (r: Request)
    ensures
        r@ == check_request_view(method@, host@, path@, ip@, pairs_view(headers@), opt_view(*key)),
{
    let mut r = Request::new(method, host, path).with_client_ip(ip);
    let ghost hs = pairs_view(headers@);
    let mut i: usize = 0;
    while i < headers.len()
        invariant
            i <= headers@.len(),
            hs == pairs_view(headers@),
            r@ == (RequestView { headers: set_all(Seq::empty(), hs.take(i as int)), ..check_request_view(method@, host@, path@, ip@, hs, opt_view(*key)) }),
        decreases headers.len() - i,
    {
        let (n, v) = &headers[i];
        r.set_header(n.as_str(), v.as_str());
        proof {
            assert(hs.take(i + 1).drop_last() =~= hs.take(i as int));
            assert(hs[i as int] == (n@, v@));
        }
        i = i + 1;
    }
    assert(hs.take(headers.len() as int) =~= hs);
    if let Some(k) = key {
        r.set_header("X-API-Key", k.as_str());
        assert(hs.push(("X-API-Key"@, k@)).drop_last() =~= hs);
    }
    r
}

/// The lines of a dry run from its `k`-th check on: `total` copies of one request,
/// all at time zero, each charged against the buckets the previous one left.
pub open spec fn dry_run_text(
    config: ConfigView,
    req: RequestView,
    total: u32,
    k: nat,
    m: Map<Seq<char>, Bucket>,
) -> Seq<Seq<char>>
    decreases total - k,
{
    if k >= total {
        Seq::empty()
    } else {
        let (d, m2) = decision(config, req, 0, m);
        seq![decision_text((k + 1) as u32, total, d)] + dry_run_text(config, req, total, k + 1, m2)
    }
}

/// Sends one request `total` times through a fresh rate limiter with the clock
/// held at zero, so a burst visibly drains the bucket, and reports each decision.
pub fn dry_run(config: &Config, req: &Request, total: u32) -> (lines: Vec<String>)
    ensures
        strings_view(lines@) == dry_run_text(config@, req@, total, 0, Map::empty()),
{
    let mut limiter = RateLimiter::new();
    let mut lines: Vec<String> = Vec::new();
    let mut k: u32 = 0;
    while k < total
        invariant
            k <= total,
            strings_view(lines@) + dry_run_text(config@, req@, total, k as nat, limiter@) == dry_run_text(
                config@,
                req@,
                total,
                0,
                Map::empty(),
            ),
        decreases total - k,
    {
        let ghost before = limiter@;
        let ghost prev = strings_view(lines@);
        let d = decide(config, req, 0, &mut limiter);
        let line = decision_line(k + 1, total, &d);
        proof {
            let (dv, m2) = decision(config@, req@, 0, before);
            assert(dry_run_text(config@, req@, total, k as nat, before) == seq![decision_text((k + 1) as u32, total, dv)]
                + dry_run_text(config@, req@, total, (k + 1) as nat, m2));
        }
        lines.push(line);
        proof {
            assert(strings_view(lines@) =~= prev.push(line@));
            assert(prev.push(line@) + dry_run_text(config@, req@, total, (k + 1) as nat, limiter@) =~= prev + (
            seq![line@] + dry_run_text(config@, req@, total, (k + 1) as nat, limiter@)));
        }
        k = k + 1;
    }
    assert(strings_view(lines@) + Seq::<Seq<char>>::empty() =~= strings_view(lines@));
    lines
}

} // verus!
