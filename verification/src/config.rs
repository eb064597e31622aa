use vstd::prelude::*;

use crate::error::{ConfigError, ConfigErrorV};
use crate::fixed::{format_number, format_number_chars, parse_number, parse_number_chars};
use crate::route::{
    pattern_of, pattern_text, routes_view, strings_view, AuthRequirement, AuthV, HostMatch, MethodMatch,
    PathPattern, PatternV, RateLimit, Route, RouteView, Shaping, ShapingView,
};
use crate::text::{
    chars_eq, chars_of, concat, join_chars, join_with, ends_with, ends_with_chars, find_char, find_char_in, find_ws,
    find_ws_in, lines, lines_of, lower_chars, lower_seq, slice_of, split_char, split_chars,
    string_of, trim, trim_chars, trim_start, trim_start_chars, upper_chars, upper_seq, views,
    words, words_of,
};

verus! {

/// A configured API key and the scopes it is allowed to exercise.
#[derive(Debug, Clone, PartialEq, Eq)]
pub struct ApiKey {
    pub key: String,
    pub scopes: Vec<String>,
}

/// The full gateway policy: the ordered route table plus the known keys.
#[derive(Debug, Clone, Default, PartialEq, Eq)]
pub struct Config {
    pub routes: Vec<Route>,
    pub keys: Vec<ApiKey>,
}

pub struct ApiKeyView {
    pub key: Seq<char>,
    pub scopes: Seq<Seq<char>>,
}

pub struct ConfigView {
    pub routes: Seq<RouteView>,
    pub keys: Seq<ApiKeyView>,
}

impl View for ApiKey {
    type V = ApiKeyView;

    open spec fn view(&self) -> ApiKeyView {
        ApiKeyView { key: self.key@, scopes: strings_view(self.scopes@) }
    }
}

pub open spec fn keys_view(v: Seq<ApiKey>) -> Seq<ApiKeyView> {
    v.map_values(|k: ApiKey| k@)
}

impl View for Config {
    type V = ConfigView;

    open spec fn view(&self) -> ConfigView {
        ConfigView { routes: routes_view(self.routes@), keys: keys_view(self.keys@) }
    }
}


// ----- parsing: specification ---------------------------------------------------------

pub open spec fn strip_comment(l: Seq<char>) -> Seq<char> {
    l.take(find_char(l, '#'))
}

/// A config line with its comment removed and surrounding whitespace trimmed.
pub open spec fn clean(l: Seq<char>) -> Seq<char> {
    trim(strip_comment(l))
}

/// The first whitespace-separated word and what follows the single whitespace
/// character after it. `None` when that character is not ASCII: the text is cut
/// one byte past the word there, inside the character, which panics.
pub open spec fn split_first(s: Seq<char>) -> Option<(Seq<char>, Seq<char>)> {
    let t = trim_start(s);
    let i = find_ws(t);
    if i < t.len() {
        if (t[i] as u32) < 128 {
            Some((t.take(i), t.skip(i + 1)))
        } else {
            None
        }
    } else {
        Some((t, Seq::<char>::empty()))
    }
}

pub open spec fn perr(line: nat, message: Seq<char>) -> ConfigErrorV {
    ConfigErrorV::Parse { line, message }
}

pub open spec fn quoted(a: Seq<char>, x: Seq<char>, b: Seq<char>) -> Seq<char> {
    a + x + b
}

/// The trimmed, non-empty pieces of a comma-separated scope list.
pub open spec fn scope_list(pieces: Seq<Seq<char>>) -> Seq<Seq<char>>
    decreases pieces.len(),
{
    if pieces.len() == 0 {
        Seq::empty()
    } else {
        let rest = scope_list(pieces.drop_last());
        if trim(pieces.last()).len() > 0 {
            rest.push(trim(pieces.last()))
        } else {
            rest
        }
    }
}

/// `key <id> [scopes a,b]`, given the text after `key`.
pub open spec fn key_line(rest: Seq<char>, line: nat) -> Option<Result<ApiKeyView, ConfigErrorV>> {
    match split_first(rest) {
        None => None,
        Some((id, tail0)) => if id.len() == 0 {
            Some(Err(perr(line, "key directive needs an identifier"@)))
        } else {
            let tail = trim(tail0);
            if tail.len() == 0 {
                Some(Ok(ApiKeyView { key: id, scopes: Seq::empty() }))
            } else {
                match split_first(tail) {
                    None => None,
                    Some((kw, list)) => if kw != "scopes"@ {
                        Some(
                            Err(
                                perr(line, quoted("expected 'scopes' after key id, found '"@, kw, "'"@)),
                            ),
                        )
                    } else {
                        Some(Ok(ApiKeyView { key: id, scopes: scope_list(split_char(list, ',')) }))
                    },
                }
            }
        },
    }
}

/// `auth` or `auth scope <name>`, given the trimmed text after `auth`. Its error
/// reports line 0.
pub open spec fn auth_value(value: Seq<char>) -> Option<Result<AuthV, ConfigErrorV>> {
    let v = trim(value);
    if v.len() == 0 {
        Some(Ok(AuthV::Key(None)))
    } else {
        match split_first(v) {
            None => None,
            Some((kw, scope)) => if kw != "scope"@ {
                Some(
                    Err(
                        perr(
                            0,
                            quoted("expected 'auth' or 'auth scope <name>', found 'auth "@, v, "'"@),
                        ),
                    ),
                )
            } else {
                Some(Ok(AuthV::Key(Some(trim(scope)))))
            },
        }
    }
}

/// `rate <n>/s burst <b>`, given the text after `rate`.
pub open spec fn rate_value(value: Seq<char>, line: nat) -> Result<RateLimit, ConfigErrorV> {
    let ws = words(value);
    if ws.len() == 0 {
        Err(perr(line, "rate needs a value"@))
    } else if !ends_with(ws[0], "/s"@) {
        Err(perr(line, quoted("rate '"@, ws[0], "' must end in '/s'"@)))
    } else {
        let per = ws[0].take(ws[0].len() - 2);
        match parse_number(per) {
            None => Err(perr(line, quoted("rate '"@, per, "' is not a number"@))),
            Some((rneg, r)) => if ws.len() < 2 {
                Err(perr(line, "rate needs 'burst <n>'"@))
            } else if ws[1] != "burst"@ {
                Err(perr(line, quoted("expected 'burst', found '"@, ws[1], "'"@)))
            } else if ws.len() < 3 {
                Err(perr(line, "burst needs a value"@))
            } else {
                match parse_number(ws[2]) {
                    None => Err(perr(line, quoted("burst '"@, ws[2], "' is not a number"@))),
                    Some((bneg, b)) => if (rneg && r > 0) || (bneg && b > 0) {
                        Err(perr(line, "rate and burst must be non-negative"@))
                    } else {
                        Ok(RateLimit { rate_nanos: r, burst_nanos: b })
                    },
                }
            },
        }
    }
}

/// `<name> <value>` for the header directives, given the text after the directive.
pub open spec fn header_value_pair(value: Seq<char>, line: nat) -> Option<Result<(Seq<char>, Seq<char>), ConfigErrorV>> {
    match split_first(value) {
        None => None,
        Some((name, val)) => if name.len() == 0 {
            Some(Err(perr(line, "header directive needs a name"@)))
        } else {
            Some(Ok((name, trim(val))))
        },
    }
}

/// A route block being read: what its lines have set so far.
pub struct PartialRoute {
    pub method: Option<Seq<char>>,
    pub host: Option<Seq<char>>,
    pub path: Option<PatternV>,
    pub auth: AuthV,
    pub rate: Option<RateLimit>,
    pub upstream: Option<Seq<char>>,
    pub shaping: ShapingView,
}

pub open spec fn empty_shaping() -> ShapingView {
    ShapingView {
        remove_headers: Seq::empty(),
        set_headers: Seq::empty(),
        add_headers: Seq::empty(),
        strip_prefix: None,
        add_prefix: None,
    }
}

pub open spec fn fresh_route() -> PartialRoute {
    PartialRoute {
        method: None,
        host: None,
        path: None,
        auth: AuthV::Anonymous,
        rate: None,
        upstream: None,
        shaping: empty_shaping(),
    }
}

/// One field line inside a route block: the directive word and the trimmed value.
pub open spec fn route_field(pr: PartialRoute, key: Seq<char>, value: Seq<char>, line: nat) -> Option<Result<PartialRoute, ConfigErrorV>> {
    if key == "method"@ {
        Some(Ok(PartialRoute { method: Some(upper_seq(value)), ..pr }))
    } else if key == "host"@ {
        Some(Ok(PartialRoute { host: if value == "*"@ { None } else { Some(lower_seq(value)) }, ..pr }))
    } else if key == "path"@ {
        Some(Ok(PartialRoute { path: Some(pattern_of(value)), ..pr }))
    } else if key == "auth"@ {
        match auth_value(value) {
            None => None,
            Some(Err(e)) => Some(Err(e)),
            Some(Ok(a)) => Some(Ok(PartialRoute { auth: a, ..pr })),
        }
    } else if key == "rate"@ {
        match rate_value(value, line) {
            Err(e) => Some(Err(e)),
            Ok(r) => Some(Ok(PartialRoute { rate: Some(r), ..pr })),
        }
    } else if key == "upstream"@ {
        Some(Ok(PartialRoute { upstream: Some(value), ..pr }))
    } else if key == "strip_prefix"@ {
        Some(Ok(PartialRoute { shaping: ShapingView { strip_prefix: Some(value), ..pr.shaping }, ..pr }))
    } else if key == "add_prefix"@ {
        Some(Ok(PartialRoute { shaping: ShapingView { add_prefix: Some(value), ..pr.shaping }, ..pr }))
    } else if key == "set_header"@ {
        match header_value_pair(value, line) {
            None => None,
            Some(Err(e)) => Some(Err(e)),
            Some(Ok(h)) => Some(Ok(PartialRoute {
                shaping: ShapingView { set_headers: pr.shaping.set_headers.push(h), ..pr.shaping },
                ..pr
            })),
        }
    } else if key == "add_header"@ {
        match header_value_pair(value, line) {
            None => None,
            Some(Err(e)) => Some(Err(e)),
            Some(Ok(h)) => Some(Ok(PartialRoute {
                shaping: ShapingView { add_headers: pr.shaping.add_headers.push(h), ..pr.shaping },
                ..pr
            })),
        }
    } else if key == "remove_header"@ {
        Some(Ok(PartialRoute {
            shaping: ShapingView { remove_headers: pr.shaping.remove_headers.push(value), ..pr.shaping },
            ..pr
        }))
    } else {
        Some(Err(perr(line, quoted("unknown route field '"@, key, "'"@))))
    }
}

/// The route a finished block defines, or the missing required field.
pub open spec fn close_route(pr: PartialRoute, block: nat) -> Result<RouteView, ConfigErrorV> {
    match pr.path {
        None => Err(ConfigErrorV::Missing { block, field: "path"@ }),
        Some(path) => match pr.upstream {
            None => Err(ConfigErrorV::Missing { block, field: "upstream"@ }),
            Some(upstream) => Ok(
                RouteView {
                    method: pr.method,
                    host: pr.host,
                    path,
                    auth: pr.auth,
                    rate: pr.rate,
                    upstream,
                    shaping: pr.shaping,
                },
            ),
        },
    }
}

/// Reading the config from line `i` on, with the config built so far, the number
/// of route blocks opened so far, and the open block if inside one. `None` when
/// the text makes the parser panic.
pub open spec fn parse_from(
    ls: Seq<Seq<char>>,
    i: int,
    acc: ConfigView,
    blocks: nat,
    open: Option<PartialRoute>,
) -> Option<Result<ConfigView, ConfigErrorV>>
    decreases ls.len() - i,
{
    if i < 0 || i >= ls.len() {
        match open {
            Some(_) => Some(Err(ConfigErrorV::Missing { block: blocks, field: "closing '}'"@ })),
            None => Some(Ok(acc)),
        }
    } else {
        let line = clean(ls[i]);
        let lineno = (i + 1) as nat;
        if line.len() == 0 {
            parse_from(ls, i + 1, acc, blocks, open)
        } else {
            match open {
                None => match split_first(line) {
                    None => None,
                    Some((head, rest)) => if head == "key"@ {
                        match key_line(rest, lineno) {
                            None => None,
                            Some(Err(e)) => Some(Err(e)),
                            Some(Ok(k)) => parse_from(
                                ls,
                                i + 1,
                                ConfigView { keys: acc.keys.push(k), ..acc },
                                blocks,
                                None,
                            ),
                        }
                    } else if head == "route"@ {
                        if trim(rest) != "{"@ {
                            Some(Err(perr(lineno, "expected 'route {' to open a route block"@)))
                        } else {
                            parse_from(ls, i + 1, acc, blocks + 1, Some(fresh_route()))
                        }
                    } else {
                        Some(Err(perr(lineno, quoted("unknown directive '"@, head, "'"@))))
                    },
                },
                Some(pr) => if line == "}"@ {
                    match close_route(pr, blocks) {
                        Err(e) => Some(Err(e)),
                        Ok(r) => parse_from(
                            ls,
                            i + 1,
                            ConfigView { routes: acc.routes.push(r), ..acc },
                            blocks,
                            None,
                        ),
                    }
                } else {
                    match split_first(line) {
                        None => None,
                        Some((key, value)) => match route_field(pr, key, trim(value), lineno) {
                            None => None,
                            Some(Err(e)) => Some(Err(e)),
                            Some(Ok(pr2)) => parse_from(ls, i + 1, acc, blocks, Some(pr2)),
                        },
                    }
                },
            }
        }
    }
}

pub open spec fn empty_config() -> ConfigView {
    ConfigView { routes: Seq::empty(), keys: Seq::empty() }
}

/// What parsing `text` gives: `Some(Ok(config))`, `Some(Err(error))`, or `None`
/// when the text makes the parser panic.
pub open spec fn config_parse(text: Seq<char>) -> Option<Result<ConfigView, ConfigErrorV>> {
    parse_from(lines(text), 0, empty_config(), 0, None)
}


// ----- parsing: implementation ----------------------------------------------------------

fn text_is(v: &Vec<char>, lit: &str) -> (b: bool)
    ensures
        b == (v@ == lit@),
{
    chars_eq(v, &chars_of(lit))
}

fn strip_comment_chars(l: &Vec<char>) -> (r: Vec<char>)
    ensures
        r@ == strip_comment(l@),
{
    let i = find_char_in(l, '#');
    slice_of(l, 0, i)
}

fn clean_chars(l: &Vec<char>) -> (r: Vec<char>)
    ensures
        r@ == clean(l@),
{
    trim_chars(&strip_comment_chars(l))
}

fn split_first_chars(s: &Vec<char>) -> (r: Option<(Vec<char>, Vec<char>)>)
    ensures
        match r {
            Some((a, b)) => split_first(s@) == Some((a@, b@)),
            None => split_first(s@) is None,
        },
{
    let t = trim_start_chars(s);
    let i = find_ws_in(&t);
    if i < t.len() {
        if (t[i] as u32) < 128 {
            Some((slice_of(&t, 0, i), slice_of(&t, i + 1, t.len())))
        } else {
            None
        }
    } else {
        let empty: Vec<char> = Vec::new();
        assert(empty@ =~= Seq::<char>::empty());
        Some((t, empty))
    }
}

fn perr_exec(line: usize, parts: &Vec<char>) -> (e: ConfigError)
    ensures
        e@ == perr(line as nat, parts@),
{
    ConfigError::Parse { line, message: string_of(parts) }
}

fn quoted_chars(a: &str, x: &Vec<char>, b: &str) -> (r: Vec<char>)
    ensures
        r@ == quoted(a@, x@, b@),
{
    concat(&concat(&chars_of(a), x), &chars_of(b))
}

fn scope_list_of(pieces: &Vec<Vec<char>>) -> (r: Vec<String>)
    ensures
        strings_view(r@) == scope_list(views(pieces@)),
{
    let ghost pv = views(pieces@);
    let mut r: Vec<String> = Vec::new();
    let mut i: usize = 0;
    while i < pieces.len()
        invariant
            pv == views(pieces@),
            i <= pieces.len(),
            strings_view(r@) == scope_list(pv.take(i as int)),
        decreases pieces.len() - i,
    {
        assert(pv.take(i + 1).drop_last() =~= pv.take(i as int));
        assert(pv.take(i + 1).last() == pieces@[i as int]@);
        let t = trim_chars(&pieces[i]);
        if t.len() > 0 {
            let ghost prev = r@;
            let st = string_of(&t);
            r.push(st);
            assert(strings_view(r@) =~= strings_view(prev).push(st@));
        }
        i = i + 1;
    }
    assert(pv.take(pieces.len() as int) =~= pv);
    r
}

fn key_line_exec(rest: &Vec<char>, line: usize) -> (r: Option<Result<ApiKey, ConfigError>>)
    ensures
        match r {
            None => key_line(rest@, line as nat) is None,
            Some(Ok(k)) => key_line(rest@, line as nat) == Some(Ok::<ApiKeyView, ConfigErrorV>(k@)),
            Some(Err(e)) => key_line(rest@, line as nat) == Some(Err::<ApiKeyView, ConfigErrorV>(e@)),
        },
{
    let (id, tail0) = match split_first_chars(rest) {
        None => return None,
        Some(p) => p,
    };
    if id.len() == 0 {
        return Some(Err(perr_exec(line, &chars_of("key directive needs an identifier"))));
    }
    let tail = trim_chars(&tail0);
    if tail.len() == 0 {
        let k = ApiKey { key: string_of(&id), scopes: Vec::new() };
        assert(k@.scopes =~= Seq::<Seq<char>>::empty());
        return Some(Ok(k));
    }
    let (kw, list) = match split_first_chars(&tail) {
        None => return None,
        Some(p) => p,
    };
    if !text_is(&kw, "scopes") {
        return Some(Err(perr_exec(line, &quoted_chars("expected 'scopes' after key id, found '", &kw, "'"))));
    }
    let pieces = split_chars(&list, ',');
    Some(Ok(ApiKey { key: string_of(&id), scopes: scope_list_of(&pieces) }))
}

fn auth_value_exec(value: &Vec<char>) -> (r: Option<Result<AuthRequirement, ConfigError>>)
    ensures
        match r {
            None => auth_value(value@) is None,
            Some(Ok(a)) => auth_value(value@) == Some(Ok::<AuthV, ConfigErrorV>(a@)),
            Some(Err(e)) => auth_value(value@) == Some(Err::<AuthV, ConfigErrorV>(e@)),
        },
{
    let v = trim_chars(value);
    if v.len() == 0 {
        return Some(Ok(AuthRequirement::Key { scope: None }));
    }
    let (kw, scope) = match split_first_chars(&v) {
        None => return None,
        Some(p) => p,
    };
    if !text_is(&kw, "scope") {
        return Some(
            Err(perr_exec(0, &quoted_chars("expected 'auth' or 'auth scope <name>', found 'auth ", &v, "'"))),
        );
    }
    Some(Ok(AuthRequirement::Key { scope: Some(string_of(&trim_chars(&scope))) }))
}

fn rate_value_exec(value: &Vec<char>, line: usize) -> (r: Result<RateLimit, ConfigError>)
    ensures
        match r {
            Ok(l) => rate_value(value@, line as nat) == Ok::<RateLimit, ConfigErrorV>(l),
            Err(e) => rate_value(value@, line as nat) == Err::<RateLimit, ConfigErrorV>(e@),
        },
{
    let ws = words_of(value);
    let ghost wv = views(ws@);
    if ws.len() == 0 {
        return Err(perr_exec(line, &chars_of("rate needs a value")));
    }
    assert(ws@[0]@ == wv[0]);
    let suffix = chars_of("/s");
    proof {
        reveal_strlit("/s");
    }
    if !ends_with_chars(&ws[0], &suffix) {
        return Err(perr_exec(line, &quoted_chars("rate '", &ws[0], "' must end in '/s'")));
    }
    let per = slice_of(&ws[0], 0, ws[0].len() - suffix.len());
    assert(per@ =~= wv[0].take(wv[0].len() - 2));
    let (rneg, rate) = match parse_number_chars(&per) {
        None => return Err(perr_exec(line, &quoted_chars("rate '", &per, "' is not a number"))),
        Some(p) => p,
    };
    if ws.len() < 2 {
        return Err(perr_exec(line, &chars_of("rate needs 'burst <n>'")));
    }
    assert(ws@[1]@ == wv[1]);
    if !text_is(&ws[1], "burst") {
        return Err(perr_exec(line, &quoted_chars("expected 'burst', found '", &ws[1], "'")));
    }
    if ws.len() < 3 {
        return Err(perr_exec(line, &chars_of("burst needs a value")));
    }
    assert(ws@[2]@ == wv[2]);
    let (bneg, burst) = match parse_number_chars(&ws[2]) {
        None => return Err(perr_exec(line, &quoted_chars("burst '", &ws[2], "' is not a number"))),
        Some(p) => p,
    };
    if (rneg && rate > 0) || (bneg && burst > 0) {
        return Err(perr_exec(line, &chars_of("rate and burst must be non-negative")));
    }
    Ok(RateLimit { rate_nanos: rate, burst_nanos: burst })
}

fn header_pair_exec(value: &Vec<char>, line: usize) -> (r: Option<Result<(String, String), ConfigError>>)
    ensures
        match r {
            None => header_value_pair(value@, line as nat) is None,
            Some(Ok(h)) => header_value_pair(value@, line as nat) == Some(
                Ok::<(Seq<char>, Seq<char>), ConfigErrorV>((h.0@, h.1@)),
            ),
            Some(Err(e)) => header_value_pair(value@, line as nat) == Some(
                Err::<(Seq<char>, Seq<char>), ConfigErrorV>(e@),
            ),
        },
{
    let (name, val) = match split_first_chars(value) {
        None => return None,
        Some(p) => p,
    };
    if name.len() == 0 {
        return Some(Err(perr_exec(line, &chars_of("header directive needs a name"))));
    }
    Some(Ok((string_of(&name), string_of(&trim_chars(&val)))))
}

/// A route block being read.
struct RouteDraft {
    method: MethodMatch,
    host: HostMatch,
    path: Option<PathPattern>,
    auth: AuthRequirement,
    rate: Option<RateLimit>,
    upstream: Option<String>,
    shaping: Shaping,
}

impl RouteDraft {
    spec fn view(&self) -> PartialRoute {
        PartialRoute {
            method: self.method@,
            host: self.host@,
            path: match self.path {
                Some(p) => Some(p@),
                None => None,
            },
            auth: self.auth@,
            rate: self.rate,
            upstream: match self.upstream {
                Some(u) => Some(u@),
                None => None,
            },
            shaping: self.shaping@,
        }
    }

    fn fresh() -> (d: RouteDraft)
        ensures
            d.view() == fresh_route(),
    {
        let d = RouteDraft {
            method: MethodMatch::Any,
            host: HostMatch::Any,
            path: None,
            auth: AuthRequirement::Anonymous,
            rate: None,
            upstream: None,
            shaping: Shaping {
                remove_headers: Vec::new(),
                set_headers: Vec::new(),
                add_headers: Vec::new(),
                strip_prefix: None,
                add_prefix: None,
            },
        };
        assert(d.view().shaping.remove_headers =~= Seq::<Seq<char>>::empty());
        assert(d.view().shaping.set_headers =~= Seq::<(Seq<char>, Seq<char>)>::empty());
        assert(d.view().shaping.add_headers =~= Seq::<(Seq<char>, Seq<char>)>::empty());
        d
    }

    fn close(self, block: usize) -> (r: Result<Route, ConfigError>)
        ensures
            match r {
                Ok(rt) => close_route(self.view(), block as nat) == Ok::<RouteView, ConfigErrorV>(rt@),
                Err(e) => close_route(self.view(), block as nat) == Err::<RouteView, ConfigErrorV>(e@),
            },
    {
        let path = match self.path {
            Some(p) => p,
            None => return Err(ConfigError::Missing { block, field: String::from_str("path") }),
        };
        let upstream = match self.upstream {
            Some(u) => u,
            None => return Err(ConfigError::Missing { block, field: String::from_str("upstream") }),
        };
        Ok(
            Route {
                method: self.method,
                host: self.host,
                path,
                auth: self.auth,
                rate: self.rate,
                upstream,
                shaping: self.shaping,
            },
        )
    }

    fn field(self, key: &Vec<char>, value: &Vec<char>, line: usize) -> (r: Option<Result<RouteDraft, ConfigError>>)
        ensures
            match r {
                None => route_field(self.view(), key@, value@, line as nat) is None,
                Some(Ok(d)) => route_field(self.view(), key@, value@, line as nat) == Some(
                    Ok::<PartialRoute, ConfigErrorV>(d.view()),
                ),
                Some(Err(e)) => route_field(self.view(), key@, value@, line as nat) == Some(
                    Err::<PartialRoute, ConfigErrorV>(e@),
                ),
            },
    {
        let mut d = self;
        if text_is(key, "method") {
            d.method = MethodMatch::Exact(string_of(&upper_chars(value)));
        } else if text_is(key, "host") {
            d.host = if text_is(value, "*") {
                HostMatch::Any
            } else {
                HostMatch::Exact(string_of(&lower_chars(value)))
            };
        } else if text_is(key, "path") {
            let spec_text = string_of(value);
            d.path = Some(PathPattern::parse(spec_text.as_str()));
        } else if text_is(key, "auth") {
            match auth_value_exec(value) {
                None => return None,
                Some(Err(e)) => return Some(Err(e)),
                Some(Ok(a)) => {
                    d.auth = a;
                },
            }
        } else if text_is(key, "rate") {
            match rate_value_exec(value, line) {
                Err(e) => return Some(Err(e)),
                Ok(r) => {
                    d.rate = Some(r);
                },
            }
        } else if text_is(key, "upstream") {
            d.upstream = Some(string_of(value));
        } else if text_is(key, "strip_prefix") {
            d.shaping.strip_prefix = Some(string_of(value));
        } else if text_is(key, "add_prefix") {
            d.shaping.add_prefix = Some(string_of(value));
        } else if text_is(key, "set_header") {
            match header_pair_exec(value, line) {
                None => return None,
                Some(Err(e)) => return Some(Err(e)),
                Some(Ok(h)) => {
                    let ghost prev = d.shaping.set_headers@;
                    d.shaping.set_headers.push(h);
                    assert(d.view().shaping.set_headers =~= crate::route::string_pairs_view(prev).push(
                        (h.0@, h.1@),
                    ));
                },
            }
        } else if text_is(key, "add_header") {
            match header_pair_exec(value, line) {
                None => return None,
                Some(Err(e)) => return Some(Err(e)),
                Some(Ok(h)) => {
                    let ghost prev = d.shaping.add_headers@;
                    d.shaping.add_headers.push(h);
                    assert(d.view().shaping.add_headers =~= crate::route::string_pairs_view(prev).push(
                        (h.0@, h.1@),
                    ));
                },
            }
        } else if text_is(key, "remove_header") {
            let ghost prev = d.shaping.remove_headers@;
            let v = string_of(value);
            d.shaping.remove_headers.push(v);
            assert(d.view().shaping.remove_headers =~= strings_view(prev).push(v@));
        } else {
            return Some(Err(perr_exec(line, &quoted_chars("unknown route field '", key, "'"))));
        }
        Some(Ok(d))
    }
}

/// Parse the line-based config format, or `None` where the text would make the
/// parser panic (a non-ASCII whitespace character right after a directive word).
pub fn parse_config_checked(text: &str) -> (r: Option<Result<Config, ConfigError>>)
    ensures
        match r {
            None => config_parse(text@) is None,
            Some(Ok(c)) => config_parse(text@) == Some(Ok::<ConfigView, ConfigErrorV>(c@)),
            Some(Err(e)) => config_parse(text@) == Some(Err::<ConfigView, ConfigErrorV>(e@)),
        },
{
    let ls = lines_of(&chars_of(text));
    let ghost lv = views(ls@);
    let mut config = Config { routes: Vec::new(), keys: Vec::new() };
    assert(config@.routes =~= Seq::<RouteView>::empty());
    assert(config@.keys =~= Seq::<ApiKeyView>::empty());
    let mut blocks: usize = 0;
    let mut open: Option<RouteDraft> = None;
    let mut i: usize = 0;
    while i < ls.len()
        invariant
            lv == views(ls@),
            lv == lines(text@),
            i <= ls.len(),
            blocks <= i,
            parse_from(lv, i as int, config@, blocks as nat, match open {
                Some(d) => Some(d.view()),
                None => None,
            }) == config_parse(text@),
        decreases ls.len() - i,
    {
        assert(ls@[i as int]@ == lv[i as int]);
        let line = clean_chars(&ls[i]);
        let lineno = i + 1;
        if line.len() == 0 {
            i = i + 1;
            continue;
        }
        match open {
            None => {
                let (head, rest) = match split_first_chars(&line) {
                    None => return None,
                    Some(p) => p,
                };
                if text_is(&head, "key") {
                    match key_line_exec(&rest, lineno) {
                        None => return None,
                        Some(Err(e)) => return Some(Err(e)),
                        Some(Ok(k)) => {
                            let ghost prev = config@;
                            config.keys.push(k);
                            assert(config@.keys =~= prev.keys.push(k@));
                            assert(config@.routes =~= prev.routes);
                        },
                    }
                } else if text_is(&head, "route") {
                    if !text_is(&trim_chars(&rest), "{") {
                        return Some(Err(perr_exec(lineno, &chars_of("expected 'route {' to open a route block"))));
                    }
                    blocks = blocks + 1;
                    open = Some(RouteDraft::fresh());
                } else {
                    return Some(Err(perr_exec(lineno, &quoted_chars("unknown directive '", &head, "'"))));
                }
            },
            Some(d) => {
                if text_is(&line, "}") {
                    match d.close(blocks) {
                        Err(e) => return Some(Err(e)),
                        Ok(r) => {
                            let ghost prev = config@;
                            config.routes.push(r);
                            assert(config@.routes =~= prev.routes.push(r@));
                            assert(config@.keys =~= prev.keys);
                            open = None;
                        },
                    }
                } else {
                    let (key, value) = match split_first_chars(&line) {
                        None => return None,
                        Some(p) => p,
                    };
                    let tv = trim_chars(&value);
                    match d.field(&key, &tv, lineno) {
                        None => return None,
                        Some(Err(e)) => return Some(Err(e)),
                        Some(Ok(d2)) => {
                            open = Some(d2);
                        },
                    }
                }
            },
        }
        i = i + 1;
    }
    match open {
        Some(_) => Some(Err(ConfigError::Missing { block: blocks, field: String::from_str("closing '}'") })),
        None => Some(Ok(config)),
    }
}

impl Config {
    /// Parse the line-based config format. See DESIGN.md for the grammar;
    /// briefly: `key <id> [scopes a,b]` lines at the top level, and `route { ... }`
    /// blocks whose lines set method/host/path/auth/rate/upstream and shaping
    /// directives. The text must not put a non-ASCII whitespace character right
    /// after a directive word (that input panics).
    pub fn parse(text: &str) -> (r: Result<Config, ConfigError>)
        requires
            config_parse(text@) is Some,
        ensures
            match r {
                Ok(c) => config_parse(text@) == Some(Ok::<ConfigView, ConfigErrorV>(c@)),
                Err(e) => config_parse(text@) == Some(Err::<ConfigView, ConfigErrorV>(e@)),
            },
    {
        match parse_config_checked(text) {
            Some(r) => r,
            None => {
                assert(false);
                Err(ConfigError::Missing { block: 0, field: String::new() })
            },
        }
    }
}


// ----- printing: specification ----------------------------------------------------------

pub open spec fn key_text(k: ApiKeyView) -> Seq<char> {
    if k.scopes.len() == 0 {
        "key "@ + k.key
    } else {
        "key "@ + k.key + " scopes "@ + join_with(k.scopes, ',')
    }
}

/// An indented `name value` line inside a route block.
pub open spec fn field_line(name: Seq<char>, v: Seq<char>) -> Seq<char> {
    "  "@ + name + " "@ + v
}

pub open spec fn opt_field(name: Seq<char>, v: Option<Seq<char>>) -> Seq<Seq<char>> {
    match v {
        Some(x) => seq![field_line(name, x)],
        None => Seq::empty(),
    }
}

pub open spec fn auth_lines(a: AuthV) -> Seq<Seq<char>> {
    match a {
        AuthV::Anonymous => Seq::empty(),
        AuthV::Key(None) => seq!["  "@ + "auth"@],
        AuthV::Key(Some(s)) => seq![field_line("auth"@, "scope "@ + s)],
    }
}

pub open spec fn rate_text(l: RateLimit) -> Seq<char> {
    field_line("rate"@, format_number(l.rate_nanos) + "/s burst "@ + format_number(l.burst_nanos))
}

pub open spec fn rate_lines(r: Option<RateLimit>) -> Seq<Seq<char>> {
    match r {
        Some(l) => seq![rate_text(l)],
        None => Seq::empty(),
    }
}

pub open spec fn named_lines(name: Seq<char>, values: Seq<Seq<char>>) -> Seq<Seq<char>> {
    values.map_values(|v: Seq<char>| field_line(name, v))
}

pub open spec fn pair_line(name: Seq<char>, h: (Seq<char>, Seq<char>)) -> Seq<char> {
    field_line(name, h.0 + " "@ + h.1)
}

pub open spec fn pair_lines(name: Seq<char>, pairs: Seq<(Seq<char>, Seq<char>)>) -> Seq<Seq<char>> {
    pairs.map_values(|h: (Seq<char>, Seq<char>)| pair_line(name, h))
}

/// The opening lines of a route block: where it matches.
pub open spec fn route_match_lines(r: RouteView) -> Seq<Seq<char>> {
    seq!["route {"@] + opt_field("method"@, r.method) + opt_field("host"@, r.host) + seq![
        field_line("path"@, pattern_text(r.path)),
    ]
}

/// The lines after the match: auth, rate, upstream and path rewrites.
pub open spec fn route_policy_lines(r: RouteView) -> Seq<Seq<char>> {
    auth_lines(r.auth) + rate_lines(r.rate) + seq![field_line("upstream"@, r.upstream)] + opt_field(
        "strip_prefix"@,
        r.shaping.strip_prefix,
    ) + opt_field("add_prefix"@, r.shaping.add_prefix)
}

/// The lines of a route block before its header rewrites.
pub open spec fn route_head_lines(r: RouteView) -> Seq<Seq<char>> {
    route_match_lines(r) + route_policy_lines(r)
}

/// The lines `print_route` writes for a route, from `route {` to `}`.
pub open spec fn route_lines(r: RouteView) -> Seq<Seq<char>> {
    route_head_lines(r) + named_lines("remove_header"@, r.shaping.remove_headers) + pair_lines(
        "set_header"@,
        r.shaping.set_headers,
    ) + pair_lines("add_header"@, r.shaping.add_headers) + seq!["}"@]
}

pub open spec fn key_lines(keys: Seq<ApiKeyView>) -> Seq<Seq<char>> {
    keys.map_values(|k: ApiKeyView| key_text(k))
}

/// Each route's lines followed by a blank line.
pub open spec fn routes_lines(rs: Seq<RouteView>) -> Seq<Seq<char>>
    decreases rs.len(),
{
    if rs.len() == 0 {
        Seq::empty()
    } else {
        routes_lines(rs.drop_last()) + route_lines(rs.last()).push(Seq::empty())
    }
}

/// The lines of the printed config: key lines, a blank line when there are keys,
/// then the route blocks.
pub open spec fn config_lines(c: ConfigView) -> Seq<Seq<char>> {
    key_lines(c.keys) + (if c.keys.len() > 0 {
        seq![Seq::<char>::empty()]
    } else {
        Seq::empty()
    }) + routes_lines(c.routes)
}

/// Lines written one after another, each ended by `\n`.
pub open spec fn line_text(ls: Seq<Seq<char>>) -> Seq<char>
    decreases ls.len(),
{
    if ls.len() == 0 {
        Seq::empty()
    } else {
        line_text(ls.drop_last()) + ls.last().push('\n')
    }
}

pub open spec fn config_text(c: ConfigView) -> Seq<char> {
    line_text(config_lines(c))
}

// ----- printing: implementation ---------------------------------------------------------

/// Accumulates printed lines and the text they make.
struct Printer {
    out: Vec<char>,
    lines: Ghost<Seq<Seq<char>>>,
}

impl Printer {
    spec fn inv(&self) -> bool {
        self.out@ == line_text(self.lines@)
    }

    fn line(&mut self, l: &Vec<char>)
        requires
            old(self).inv(),
        ensures
            final(self).inv(),
            final(self).lines@ == old(self).lines@.push(l@),
    {
        let mut with_nl = slice_of(l, 0, l.len());
        with_nl.push('\n');
        let ghost prev = self.lines@;
        self.out = concat(&self.out, &with_nl);
        self.lines = Ghost(prev.push(l@));
        assert(self.lines@.drop_last() =~= prev);
        assert(with_nl@ =~= l@.push('\n'));
    }

    fn field(&mut self, name: &str, v: &Vec<char>)
        requires
            old(self).inv(),
        ensures
            final(self).inv(),
            final(self).lines@ == old(self).lines@.push(field_line(name@, v@)),
    {
        let l = concat(&concat(&concat(&chars_of("  "), &chars_of(name)), &chars_of(" ")), v);
        self.line(&l);
    }
}

fn key_text_chars(k: &ApiKey) -> (t: Vec<char>)
    ensures
        t@ == key_text(k@),
{
    let head = concat(&chars_of("key "), &chars_of(k.key.as_str()));
    if k.scopes.len() == 0 {
        return head;
    }
    let ghost sv = strings_view(k.scopes@);
    let mut parts: Vec<Vec<char>> = Vec::new();
    let mut i: usize = 0;
    while i < k.scopes.len()
        invariant
            sv == strings_view(k.scopes@),
            i <= k.scopes.len(),
            views(parts@) == sv.take(i as int),
        decreases k.scopes.len() - i,
    {
        let ghost prev = views(parts@);
        let c = chars_of(k.scopes[i].as_str());
        parts.push(c);
        assert(views(parts@) =~= prev.push(c@));
        i = i + 1;
        assert(views(parts@) =~= sv.take(i as int));
    }
    assert(sv.take(k.scopes.len() as int) =~= sv);
    concat(&concat(&head, &chars_of(" scopes ")), &join_chars(&parts, ','))
}

fn print_opt(p: &mut Printer, name: &str, v: Option<&String>)
    requires
        old(p).inv(),
    ensures
        final(p).inv(),
        final(p).lines@ == old(p).lines@ + opt_field(name@, match v {
            Some(x) => Some(x@),
            None => None,
        }),
{
    let ghost start = p.lines@;
    if let Some(x) = v {
        p.field(name, &chars_of(x.as_str()));
    }
    assert(p.lines@ =~= start + opt_field(name@, match v {
        Some(x) => Some(x@),
        None => None,
    }));
}

fn print_auth(p: &mut Printer, a: &AuthRequirement)
    requires
        old(p).inv(),
    ensures
        final(p).inv(),
        final(p).lines@ == old(p).lines@ + auth_lines(a@),
{
    let ghost start = p.lines@;
    match a {
        AuthRequirement::Anonymous => {},
        AuthRequirement::Key { scope: None } => {
            p.line(&concat(&chars_of("  "), &chars_of("auth")));
        },
        AuthRequirement::Key { scope: Some(s) } => {
            p.field("auth", &concat(&chars_of("scope "), &chars_of(s.as_str())));
        },
    }
    assert(p.lines@ =~= start + auth_lines(a@));
}

fn print_rate(p: &mut Printer, r: &Option<RateLimit>)
    requires
        old(p).inv(),
    ensures
        final(p).inv(),
        final(p).lines@ == old(p).lines@ + rate_lines(*r),
{
    let ghost start = p.lines@;
    if let Some(rate) = r {
        let a = concat(&format_number_chars(rate.rate_nanos), &chars_of("/s burst "));
        let b = concat(&a, &format_number_chars(rate.burst_nanos));
        p.field("rate", &b);
    }
    assert(p.lines@ =~= start + rate_lines(*r));
}

fn print_route_match(p: &mut Printer, r: &Route)
    requires
        old(p).inv(),
    ensures
        final(p).inv(),
        final(p).lines@ == old(p).lines@ + route_match_lines(r@),
{
    let ghost start = p.lines@;
    p.line(&chars_of("route {"));
    let m = match &r.method {
        MethodMatch::Exact(m) => Some(m),
        MethodMatch::Any => None,
    };
    print_opt(p, "method", m);
    let h = match &r.host {
        HostMatch::Exact(h) => Some(h),
        HostMatch::Any => None,
    };
    print_opt(p, "host", h);
    p.field("path", &chars_of(r.path.to_spec().as_str()));
    assert(p.lines@ =~= start + route_match_lines(r@));
}

fn print_route_policy(p: &mut Printer, r: &Route)
    requires
        old(p).inv(),
    ensures
        final(p).inv(),
        final(p).lines@ == old(p).lines@ + route_policy_lines(r@),
{
    let ghost start = p.lines@;
    print_auth(p, &r.auth);
    print_rate(p, &r.rate);
    p.field("upstream", &chars_of(r.upstream.as_str()));
    print_opt(p, "strip_prefix", r.shaping.strip_prefix.as_ref());
    print_opt(p, "add_prefix", r.shaping.add_prefix.as_ref());
    assert(p.lines@ =~= start + route_policy_lines(r@));
}

fn print_names(p: &mut Printer, name: &str, values: &Vec<String>)
    requires
        old(p).inv(),
    ensures
        final(p).inv(),
        final(p).lines@ == old(p).lines@ + named_lines(name@, strings_view(values@)),
{
    let ghost start = p.lines@;
    let ghost nv = strings_view(values@);
    let mut i: usize = 0;
    while i < values.len()
        invariant
            p.inv(),
            nv == strings_view(values@),
            i <= values.len(),
            p.lines@ == start + named_lines(name@, nv.take(i as int)),
        decreases values.len() - i,
    {
        p.field(name, &chars_of(values[i].as_str()));
        proof {
            let want = named_lines(name@, nv.take(i + 1));
            assert(want =~= named_lines(name@, nv.take(i as int)).push(field_line(name@, nv[i as int])));
        }
        i = i + 1;
        assert(p.lines@ =~= start + named_lines(name@, nv.take(i as int)));
    }
    assert(nv.take(i as int) =~= nv);
}

fn print_pairs(p: &mut Printer, name: &str, pairs: &Vec<(String, String)>)
    requires
        old(p).inv(),
    ensures
        final(p).inv(),
        final(p).lines@ == old(p).lines@ + pair_lines(name@, crate::route::string_pairs_view(pairs@)),
{
    let ghost start = p.lines@;
    let ghost pv = crate::route::string_pairs_view(pairs@);
    let mut i: usize = 0;
    while i < pairs.len()
        invariant
            p.inv(),
            pv == crate::route::string_pairs_view(pairs@),
            i <= pairs.len(),
            p.lines@ == start + pair_lines(name@, pv.take(i as int)),
        decreases pairs.len() - i,
    {
        let n = chars_of(pairs[i].0.as_str());
        let v = chars_of(pairs[i].1.as_str());
        let nv = concat(&concat(&n, &chars_of(" ")), &v);
        p.field(name, &nv);
        proof {
            assert(pv[i as int] == (n@, v@));
            let want = pair_lines(name@, pv.take(i + 1));
            assert(want =~= pair_lines(name@, pv.take(i as int)).push(pair_line(name@, pv[i as int])));
        }
        i = i + 1;
        assert(p.lines@ =~= start + pair_lines(name@, pv.take(i as int)));
    }
    assert(pv.take(i as int) =~= pv);
}

fn print_route(p: &mut Printer, r: &Route)
    requires
        old(p).inv(),
    ensures
        final(p).inv(),
        final(p).lines@ == old(p).lines@ + route_lines(r@),
{
    let ghost start = p.lines@;
    print_route_match(p, r);
    print_route_policy(p, r);
    print_names(p, "remove_header", &r.shaping.remove_headers);
    print_pairs(p, "set_header", &r.shaping.set_headers);
    print_pairs(p, "add_header", &r.shaping.add_headers);
    p.line(&chars_of("}"));
    assert(p.lines@ =~= start + route_lines(r@));
}

impl Config {
    pub fn to_text(&self) -> (t: String)
        ensures
            t@ == config_text(self@),
    {
        let mut p = Printer { out: Vec::new(), lines: Ghost(Seq::empty()) };
        assert(p.out@ =~= line_text(Seq::empty()));
        assert(key_lines(self@.keys.take(0)) =~= Seq::<Seq<char>>::empty());
        let ghost cv = self@;
        let mut i: usize = 0;
        while i < self.keys.len()
            invariant
                p.inv(),
                cv == self@,
                i <= self.keys.len(),
                p.lines@ == key_lines(cv.keys.take(i as int)),
            decreases self.keys.len() - i,
        {
            let t = key_text_chars(&self.keys[i]);
            let ghost before = p.lines@;
            p.line(&t);
            proof {
                assert(cv.keys[i as int] == self.keys@[i as int]@);
                assert(key_lines(cv.keys.take(i + 1)) =~= key_lines(cv.keys.take(i as int)).push(key_text(cv.keys[i as int])));
            }
            i = i + 1;
            assert(p.lines@ =~= key_lines(cv.keys.take(i as int)));
        }
        assert(cv.keys.take(i as int) =~= cv.keys);
        if self.keys.len() > 0 {
            p.line(&Vec::new());
        }
        let ghost head = p.lines@;
        assert(head =~= key_lines(cv.keys) + (if cv.keys.len() > 0 {
            seq![Seq::<char>::empty()]
        } else {
            Seq::empty()
        }));
        let mut j: usize = 0;
        while j < self.routes.len()
            invariant
                p.inv(),
                cv == self@,
                j <= self.routes.len(),
                p.lines@ == head + routes_lines(cv.routes.take(j as int)),
            decreases self.routes.len() - j,
        {
            print_route(&mut p, &self.routes[j]);
            p.line(&Vec::new());
            proof {
                assert(cv.routes.take(j + 1).drop_last() =~= cv.routes.take(j as int));
                assert(cv.routes.take(j + 1).last() == self.routes@[j as int]@);
            }
            j = j + 1;
            assert(p.lines@ =~= head + routes_lines(cv.routes.take(j as int)));
        }
        assert(cv.routes.take(j as int) =~= cv.routes);
        string_of(&p.out)
    }
}

} // verus!
