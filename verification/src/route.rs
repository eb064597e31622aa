use vstd::prelude::*;

use crate::request::{Request, RequestView};
use crate::text::{
    chars_eq, chars_of, ends_with, ends_with_chars, eq_ignore_case, eq_ignore_case_chars,
    join_with, lemma_join_split, slice_of, split_char, split_chars, starts_with, starts_with_chars,
    string_of, views,
};

verus! {

/// How a route matches the request method: any verb, or one specific verb.
#[derive(Debug, Clone, PartialEq, Eq)]
pub enum MethodMatch {
    Any,
    Exact(String),
}

/// How a route matches the request host: any host, or one specific host.
#[derive(Debug, Clone, PartialEq, Eq)]
pub enum HostMatch {
    Any,
    Exact(String),
}

/// One path segment in a `:param` pattern.
#[derive(Debug, Clone, PartialEq, Eq)]
pub enum Segment {
    Literal(String),
    Param(String),
}

/// The three ways a route can match a path. This is the whole routing model:
/// an exact string, a `:param` template, or a prefix ending in `*`.
#[derive(Debug, Clone, PartialEq, Eq)]
pub enum PathPattern {
    Exact(String),
    Param(Vec<Segment>),
    Prefix(String),
}

/// Ranks a matched route. Higher tier wins first (exact > param > prefix), then
/// higher specificity within a tier (longer prefix, more literal segments).
#[derive(Debug, Clone, Copy, PartialEq, Eq, PartialOrd, Ord)]
pub struct MatchScore {
    pub tier: u8,
    pub specificity: usize,
}

/// What a route demands of the caller before it may pass.
#[derive(Debug, Clone, PartialEq, Eq)]
pub enum AuthRequirement {
    /// No key needed; the caller is anonymous and rate limited by IP.
    Anonymous,
    /// A valid key is required. `scope` (when set) must be one of the key's scopes.
    Key { scope: Option<String> },
}

/// Per-route token bucket settings, in billionths: `rate_nanos` is the number of
/// 1e-9 tokens added per second and `burst_nanos` the capacity in 1e-9 tokens,
/// so a rate of 0.5 tokens per second is `rate_nanos == 500_000_000`.
#[derive(Debug, Clone, Copy, PartialEq, Eq)]
pub struct RateLimit {
    pub rate_nanos: u64,
    pub burst_nanos: u64,
}

/// Header and path rewrites applied to an allowed request before forwarding.
#[derive(Debug, Clone, Default, PartialEq, Eq)]
pub struct Shaping {
    pub remove_headers: Vec<String>,
    pub set_headers: Vec<(String, String)>,
    pub add_headers: Vec<(String, String)>,
    pub strip_prefix: Option<String>,
    pub add_prefix: Option<String>,
}

/// A single routing rule and everything the pipeline needs once it matches.
#[derive(Debug, Clone, PartialEq, Eq)]
pub struct Route {
    pub method: MethodMatch,
    pub host: HostMatch,
    pub path: PathPattern,
    pub auth: AuthRequirement,
    pub rate: Option<RateLimit>,
    pub upstream: String,
    pub shaping: Shaping,
}

// ----- views -----------------------------------------------------------------

pub enum SegmentV {
    Literal(Seq<char>),
    Param(Seq<char>),
}

pub enum PatternV {
    Exact(Seq<char>),
    Param(Seq<SegmentV>),
    Prefix(Seq<char>),
}

pub enum AuthV {
    Anonymous,
    Key(Option<Seq<char>>),
}

pub struct ShapingView {
    pub remove_headers: Seq<Seq<char>>,
    pub set_headers: Seq<(Seq<char>, Seq<char>)>,
    pub add_headers: Seq<(Seq<char>, Seq<char>)>,
    pub strip_prefix: Option<Seq<char>>,
    pub add_prefix: Option<Seq<char>>,
}

pub struct RouteView {
    /// `None` matches any method.
    pub method: Option<Seq<char>>,
    /// `None` matches any host.
    pub host: Option<Seq<char>>,
    pub path: PatternV,
    pub auth: AuthV,
    pub rate: Option<RateLimit>,
    pub upstream: Seq<char>,
    pub shaping: ShapingView,
}

impl View for MethodMatch {
    type V = Option<Seq<char>>;

    open spec fn view(&self) -> Option<Seq<char>> {
        match self {
            MethodMatch::Any => None,
            MethodMatch::Exact(m) => Some(m@),
        }
    }
}

impl View for HostMatch {
    type V = Option<Seq<char>>;

    open spec fn view(&self) -> Option<Seq<char>> {
        match self {
            HostMatch::Any => None,
            HostMatch::Exact(h) => Some(h@),
        }
    }
}

impl View for Segment {
    type V = SegmentV;

    open spec fn view(&self) -> SegmentV {
        match self {
            Segment::Literal(l) => SegmentV::Literal(l@),
            Segment::Param(p) => SegmentV::Param(p@),
        }
    }
}

pub open spec fn segments_view(v: Seq<Segment>) -> Seq<SegmentV> {
    v.map_values(|s: Segment| s@)
}

impl View for PathPattern {
    type V = PatternV;

    open spec fn view(&self) -> PatternV {
        match self {
            PathPattern::Exact(p) => PatternV::Exact(p@),
            PathPattern::Param(segs) => PatternV::Param(segments_view(segs@)),
            PathPattern::Prefix(p) => PatternV::Prefix(p@),
        }
    }
}

pub open spec fn opt_str(o: Option<String>) -> Option<Seq<char>> {
    match o {
        Some(s) => Some(s@),
        None => None,
    }
}

impl View for AuthRequirement {
    type V = AuthV;

    open spec fn view(&self) -> AuthV {
        match self {
            AuthRequirement::Anonymous => AuthV::Anonymous,
            AuthRequirement::Key { scope } => AuthV::Key(opt_str(*scope)),
        }
    }
}

pub open spec fn strings_view(v: Seq<String>) -> Seq<Seq<char>> {
    v.map_values(|s: String| s@)
}

pub open spec fn string_pairs_view(v: Seq<(String, String)>) -> Seq<(Seq<char>, Seq<char>)> {
    v.map_values(|h: (String, String)| (h.0@, h.1@))
}

impl View for Shaping {
    type V = ShapingView;

    open spec fn view(&self) -> ShapingView {
        ShapingView {
            remove_headers: strings_view(self.remove_headers@),
            set_headers: string_pairs_view(self.set_headers@),
            add_headers: string_pairs_view(self.add_headers@),
            strip_prefix: opt_str(self.strip_prefix),
            add_prefix: opt_str(self.add_prefix),
        }
    }
}

impl View for Route {
    type V = RouteView;

    open spec fn view(&self) -> RouteView {
        RouteView {
            method: self.method@,
            host: self.host@,
            path: self.path@,
            auth: self.auth@,
            rate: self.rate,
            upstream: self.upstream@,
            shaping: self.shaping@,
        }
    }
}

pub open spec fn routes_view(v: Seq<Route>) -> Seq<RouteView> {
    v.map_values(|r: Route| r@)
}

// ----- path patterns: specification -------------------------------------------

pub open spec fn segment_of(piece: Seq<char>) -> SegmentV {
    if piece.len() > 0 && piece[0] == ':' {
        SegmentV::Param(piece.drop_first())
    } else {
        SegmentV::Literal(piece)
    }
}

pub open spec fn segment_text(s: SegmentV) -> Seq<char> {
    match s {
        SegmentV::Literal(l) => l,
        SegmentV::Param(p) => seq![':'] + p,
    }
}

pub open spec fn segments_of(pieces: Seq<Seq<char>>) -> Seq<SegmentV> {
    pieces.map_values(|p: Seq<char>| segment_of(p))
}

pub open spec fn segment_texts(segs: Seq<SegmentV>) -> Seq<Seq<char>> {
    segs.map_values(|s: SegmentV| segment_text(s))
}

pub open spec fn has_param_piece(pieces: Seq<Seq<char>>) -> bool {
    exists|i: int| 0 <= i < pieces.len() && pieces[i].len() > 0 && #[trigger] pieces[i][0] == ':'
}

/// A path spec from config: trailing `*` is a prefix, a `:name` segment makes a
/// param template, anything else is matched exactly.
pub open spec fn pattern_of(spec: Seq<char>) -> PatternV {
    if ends_with(spec, seq!['*']) {
        PatternV::Prefix(spec.drop_last())
    } else if has_param_piece(split_char(spec, '/')) {
        PatternV::Param(segments_of(split_char(spec, '/')))
    } else {
        PatternV::Exact(spec)
    }
}

/// The config spec form of a pattern.
pub open spec fn pattern_text(p: PatternV) -> Seq<char> {
    match p {
        PatternV::Exact(s) => s,
        PatternV::Prefix(s) => s.push('*'),
        PatternV::Param(segs) => join_with(segment_texts(segs), '/'),
    }
}

/// Length in UTF-8 bytes, the length `str::len` reports.
pub open spec fn utf8_len(s: Seq<char>) -> nat {
    vstd::utf8::encode_utf8(s).len()
}

pub open spec fn literal_count(segs: Seq<SegmentV>) -> nat
    decreases segs.len(),
{
    if segs.len() == 0 {
        0
    } else {
        literal_count(segs.drop_last()) + if segs.last() is Literal {
            1nat
        } else {
            0nat
        }
    }
}

pub open spec fn segment_fits(seg: SegmentV, part: Seq<char>) -> bool {
    match seg {
        SegmentV::Literal(l) => l == part,
        SegmentV::Param(_) => part.len() > 0,
    }
}

/// Whether a param template matches a path: same number of `/`-separated parts,
/// literals equal, param parts non-empty.
pub open spec fn template_fits(segs: Seq<SegmentV>, path: Seq<char>) -> bool {
    let parts = split_char(path, '/');
    &&& parts.len() == segs.len()
    &&& forall|i: int| 0 <= i < segs.len() ==> segment_fits(#[trigger] segs[i], parts[i])
}

/// (tier, specificity) of a pattern against a path, or `None` when it does not match.
pub open spec fn pattern_score(p: PatternV, path: Seq<char>) -> Option<(nat, nat)> {
    match p {
        PatternV::Exact(s) => if s == path {
            Some((3nat, utf8_len(s)))
        } else {
            None
        },
        PatternV::Param(segs) => if template_fits(segs, path) {
            Some((2nat, literal_count(segs)))
        } else {
            None
        },
        PatternV::Prefix(s) => if starts_with(path, s) {
            Some((1nat, utf8_len(s)))
        } else {
            None
        },
    }
}

pub open spec fn matcher_accepts(m: Option<Seq<char>>, v: Seq<char>) -> bool {
    match m {
        None => true,
        Some(x) => eq_ignore_case(x, v),
    }
}

pub open spec fn route_score(r: RouteView, req: RequestView) -> Option<(nat, nat)> {
    if matcher_accepts(r.method, req.method) && matcher_accepts(r.host, req.host) {
        pattern_score(r.path, req.path)
    } else {
        None
    }
}

/// `a` ranks strictly above `b`: higher tier, or equal tier and higher specificity.
pub open spec fn outranks(a: (nat, nat), b: (nat, nat)) -> bool {
    a.0 > b.0 || (a.0 == b.0 && a.1 > b.1)
}

/// Route `i` is the one routing picks: it matches, no matching route outranks it,
/// and every earlier matching route ranks strictly below it.
pub open spec fn is_chosen(routes: Seq<RouteView>, req: RequestView, i: int) -> bool {
    &&& 0 <= i < routes.len()
    &&& route_score(routes[i], req) is Some
    &&& forall|j: int|
        0 <= j < routes.len() && (#[trigger] route_score(routes[j], req)) is Some ==> !outranks(
            route_score(routes[j], req)->0,
            route_score(routes[i], req)->0,
        )
    &&& forall|j: int|
        0 <= j < i && (#[trigger] route_score(routes[j], req)) is Some ==> outranks(
            route_score(routes[i], req)->0,
            route_score(routes[j], req)->0,
        )
}

pub open spec fn none_match(routes: Seq<RouteView>, req: RequestView) -> bool {
    forall|j: int| 0 <= j < routes.len() ==> (#[trigger] route_score(routes[j], req)) is None
}


pub open spec fn score_view(s: Option<MatchScore>) -> Option<(nat, nat)> {
    match s {
        Some(m) => Some((m.tier as nat, m.specificity as nat)),
        None => None,
    }
}

// ----- path patterns: implementation -------------------------------------------

fn segment_from(piece: &Vec<char>) -> (s: Segment)
    ensures
        s@ == segment_of(piece@),
{
    if piece.len() > 0 && piece[0] == ':' {
        Segment::Param(string_of(&slice_of(piece, 1, piece.len())))
    } else {
        Segment::Literal(string_of(piece))
    }
}

impl Segment {
    fn text(&self) -> (t: Vec<char>)
        ensures
            t@ == segment_text(self@),
    {
        match self {
            Segment::Literal(l) => chars_of(l.as_str()),
            Segment::Param(p) => {
                let mut t = vec![':'];
                let pc = chars_of(p.as_str());
                let r = crate::text::concat(&t, &pc);
                assert(seq![':'] =~= t@);
                r
            },
        }
    }
}

impl PathPattern {
    /// Parse a path spec from config. Trailing `*` means prefix, a `:name`
    /// segment means a param template, otherwise the path is matched exactly.
    pub fn parse(spec: &str) -> (p: PathPattern)
        ensures
            p@ == pattern_of(spec@),
    {
        let v = chars_of(spec);
        let star = vec!['*'];
        assert(star@ =~= seq!['*']);
        if ends_with_chars(&v, &star) {
            return PathPattern::Prefix(string_of(&slice_of(&v, 0, v.len() - 1)));
        }
        let pieces = split_chars(&v, '/');
        let ghost pv = split_char(v@, '/');
        let mut any = false;
        let mut i: usize = 0;
        while i < pieces.len()
            invariant
                views(pieces@) == pv,
                i <= pieces.len(),
                any == exists|k: int| 0 <= k < i && pv[k].len() > 0 && #[trigger] pv[k][0] == ':',
            decreases pieces.len() - i,
        {
            if pieces[i].len() > 0 && pieces[i][0] == ':' {
                assert(pv[i as int].len() > 0 && pv[i as int][0] == ':');
                any = true;
            }
            i = i + 1;
        }
        if !any {
            return PathPattern::Exact(string_of(&v));
        }
        let mut segs: Vec<Segment> = Vec::new();
        let mut j: usize = 0;
        while j < pieces.len()
            invariant
                views(pieces@) == pv,
                j <= pieces.len(),
                segments_view(segs@) == segments_of(pv.take(j as int)),
            decreases pieces.len() - j,
        {
            assert(segments_of(pv.take(j as int)).len() == j);
            assert(segments_view(segs@).len() == segs@.len());
            assert(pieces@[j as int]@ == pv[j as int]);
            let sg = segment_from(&pieces[j]);
            let ghost old_view = segments_view(segs@);
            segs.push(sg);
            proof {
                let nv = segments_view(segs@);
                let want = segments_of(pv.take(j + 1));
                assert(nv.len() == want.len());
                assert forall|k: int| 0 <= k < nv.len() implies nv[k] == want[k] by {
                    if k < j {
                        assert(nv[k] == segs@[k]@);
                        assert(segs@[k] == segs@.drop_last()[k]);
                        assert(old_view[k] == segments_of(pv.take(j as int))[k]);
                        assert(pv.take(j as int)[k] == pv.take(j + 1)[k]);
                    }
                }
                assert(nv =~= want);
            }
            j = j + 1;
        }
        assert(pv.take(pieces.len() as int) =~= pv);
        PathPattern::Param(segs)
    }

    /// Render back to the config spec form. Inverse of `parse`.
    pub fn to_spec(&self) -> (t: String)
        ensures
            t@ == pattern_text(self@),
    {
        match self {
            PathPattern::Exact(p) => String::from_str(p.as_str()),
            PathPattern::Prefix(p) => {
                let mut v = chars_of(p.as_str());
                v.push('*');
                string_of(&v)
            },
            PathPattern::Param(segs) => {
                let ghost sv = segments_view(segs@);
                let mut texts: Vec<Vec<char>> = Vec::new();
                let mut i: usize = 0;
                while i < segs.len()
                    invariant
                        sv == segments_view(segs@),
                        i <= segs.len(),
                        views(texts@) == segment_texts(sv.take(i as int)),
                    decreases segs.len() - i,
                {
                    assert(segs@[i as int]@ == sv[i as int]);
                    let t = segs[i].text();
                    let ghost old_view = views(texts@);
                    texts.push(t);
                    proof {
                        let nv = views(texts@);
                        let want = segment_texts(sv.take(i + 1));
                        assert(old_view.len() == i);
                        assert(nv.len() == want.len());
                        assert forall|k: int| 0 <= k < nv.len() implies nv[k] == want[k] by {
                            if k < i {
                                assert(nv[k] == texts@[k]@);
                                assert(texts@[k] == texts@.drop_last()[k]);
                                assert(old_view[k] == segment_texts(sv.take(i as int))[k]);
                                assert(sv.take(i as int)[k] == sv.take(i + 1)[k]);
                            }
                        }
                        assert(nv =~= want);
                    }
                    i = i + 1;
                }
                assert(sv.take(segs.len() as int) =~= sv);
                string_of(&crate::text::join_chars(&texts, '/'))
            },
        }
    }

    fn score(&self, path: &str) -> (r: Option<MatchScore>)
        ensures
            score_view(r) == pattern_score(self@, path@),
    {
        let pv = chars_of(path);
        match self {
            PathPattern::Exact(p) => {
                let pc = chars_of(p.as_str());
                if chars_eq(&pc, &pv) {
                    Some(MatchScore { tier: 3, specificity: p.as_str().as_bytes().len() })
                } else {
                    None
                }
            },
            PathPattern::Prefix(prefix) => {
                let pc = chars_of(prefix.as_str());
                if starts_with_chars(&pv, &pc) {
                    Some(MatchScore { tier: 1, specificity: prefix.as_str().as_bytes().len() })
                } else {
                    None
                }
            },
            PathPattern::Param(segs) => {
                let ghost sv = segments_view(segs@);
                let parts = split_chars(&pv, '/');
                let ghost partv = split_char(pv@, '/');
                if parts.len() != segs.len() {
                    return None;
                }
                let mut literals: usize = 0;
                let mut i: usize = 0;
                while i < segs.len()
                    invariant
                        sv == segments_view(segs@),
                        views(parts@) == partv,
                        partv == split_char(path@, '/'),
                        self@ == PatternV::Param(sv),
                        parts@.len() == segs@.len(),
                        i <= segs.len(),
                        literals == literal_count(sv.take(i as int)),
                        literals <= i,
                        forall|k: int| 0 <= k < i ==> segment_fits(#[trigger] sv[k], partv[k]),
                    decreases segs.len() - i,
                {
                    assert(sv.take(i + 1).drop_last() =~= sv.take(i as int));
                    assert(segs@[i as int]@ == sv[i as int]);
                    assert(parts@[i as int]@ == partv[i as int]);
                    match &segs[i] {
                        Segment::Literal(l) => {
                            let lc = chars_of(l.as_str());
                            if !chars_eq(&lc, &parts[i]) {
                                assert(!segment_fits(sv[i as int], partv[i as int]));
                                assert(split_char(path@, '/') == partv);
                                assert(!template_fits(sv, path@));
                                return None;
                            }
                            literals = literals + 1;
                        },
                        Segment::Param(_) => {
                            if parts[i].len() == 0 {
                                assert(!segment_fits(sv[i as int], partv[i as int]));
                                assert(split_char(path@, '/') == partv);
                                assert(!template_fits(sv, path@));
                                return None;
                            }
                        },
                    }
                    i = i + 1;
                }
                assert(sv.take(segs.len() as int) =~= sv);
                Some(MatchScore { tier: 2, specificity: literals })
            },
        }
    }
}

impl MethodMatch {
    fn matches(&self, method: &str) -> (b: bool)
        ensures
            b == matcher_accepts(self@, method@),
    {
        match self {
            MethodMatch::Any => true,
            MethodMatch::Exact(m) => eq_ignore_case_chars(&chars_of(m.as_str()), &chars_of(method)),
        }
    }
}

impl HostMatch {
    fn matches(&self, host: &str) -> (b: bool)
        ensures
            b == matcher_accepts(self@, host@),
    {
        match self {
            HostMatch::Any => true,
            HostMatch::Exact(h) => eq_ignore_case_chars(&chars_of(h.as_str()), &chars_of(host)),
        }
    }
}

impl Route {
    fn score(&self, req: &Request) -> (r: Option<MatchScore>)
        ensures
            score_view(r) == route_score(self@, req@),
    {
        if !self.method.matches(req.method.as_str()) {
            return None;
        }
        if !self.host.matches(req.host.as_str()) {
            return None;
        }
        self.path.score(req.path.as_str())
    }
}

/// The index of the single most specific route for a request, or `None` for a 404.
pub fn match_route_index(routes: &[Route], req: &Request) -> (r: Option<usize>)
    ensures
        match r {
            Some(i) => is_chosen(routes_view(routes@), req@, i as int),
            None => none_match(routes_view(routes@), req@),
        },
{
    let ghost rv = routes_view(routes@);
    let mut best: Option<(usize, MatchScore)> = None;
    let mut i: usize = 0;
    while i < routes.len()
        invariant
            rv == routes_view(routes@),
            i <= routes.len(),
            match best {
                Some((b, s)) => {
                    &&& b < i
                    &&& route_score(rv[b as int], req@) == Some((s.tier as nat, s.specificity as nat))
                    &&& forall|j: int|
                        0 <= j < i && (#[trigger] route_score(rv[j], req@)) is Some ==> !outranks(
                            route_score(rv[j], req@)->0,
                            (s.tier as nat, s.specificity as nat),
                        )
                    &&& forall|j: int|
                        0 <= j < b && (#[trigger] route_score(rv[j], req@)) is Some ==> outranks(
                            (s.tier as nat, s.specificity as nat),
                            route_score(rv[j], req@)->0,
                        )
                },
                None => forall|j: int| 0 <= j < i ==> (#[trigger] route_score(rv[j], req@)) is None,
            },
        decreases routes.len() - i,
    {
        assert(rv[i as int] == routes@[i as int]@);
        if let Some(score) = routes[i].score(req) {
            match best {
                Some((_, b)) if !(score.tier > b.tier || (score.tier == b.tier && score.specificity
                    > b.specificity)) => {},
                _ => {
                    best = Some((i, score));
                },
            }
        }
        i = i + 1;
    }
    match best {
        Some((b, _)) => Some(b),
        None => None,
    }
}

/// Find the single most specific route for a request, or `None` for a 404.
pub fn match_route<'a>(routes: &'a [Route], req: &Request) -> (r: Option<&'a Route>)
    ensures
        match r {
            Some(rt) => exists|i: int|
                is_chosen(routes_view(routes@), req@, i) && #[trigger] routes@[i] == *rt,
            None => none_match(routes_view(routes@), req@),
        },
{
    match match_route_index(routes, req) {
        Some(i) => Some(&routes[i]),
        None => None,
    }
}


/// The index of the route that routing picks, if any.
pub open spec fn chosen_route(routes: Seq<RouteView>, req: RequestView) -> Option<int> {
    if exists|i: int| is_chosen(routes, req, i) {
        Some(choose|i: int| is_chosen(routes, req, i))
    } else {
        None
    }
}

/// At most one route is the chosen one.
pub proof fn lemma_chosen_unique(routes: Seq<RouteView>, req: RequestView, i: int, j: int)
    requires
        is_chosen(routes, req, i),
        is_chosen(routes, req, j),
    ensures
        i == j,
{
    if i < j {
        assert(outranks(route_score(routes[j], req)->0, route_score(routes[i], req)->0));
    } else if j < i {
        assert(outranks(route_score(routes[i], req)->0, route_score(routes[j], req)->0));
    }
}

pub proof fn lemma_chosen_route(routes: Seq<RouteView>, req: RequestView, r: Option<int>)
    requires
        match r {
            Some(i) => is_chosen(routes, req, i),
            None => none_match(routes, req),
        },
    ensures
        chosen_route(routes, req) == r,
{
    match r {
        Some(i) => {
            let k = choose|k: int| is_chosen(routes, req, k);
            lemma_chosen_unique(routes, req, i, k);
        },
        None => {
            assert forall|i: int| !is_chosen(routes, req, i) by {
                if 0 <= i < routes.len() {
                    assert(route_score(routes[i], req) is None);
                }
            }
        },
    }
}

// ----- laws ------------------------------------------------------------------

/// Rendering a parsed path spec gives back the spec text: `to_spec` undoes `parse`.
pub proof fn law_pattern_round_trip(spec: Seq<char>)
    ensures
        pattern_text(pattern_of(spec)) == spec,
{
    if ends_with(spec, seq!['*']) {
        assert(spec.skip(spec.len() - 1)[0] == spec[spec.len() - 1]);
        assert(spec.last() == '*');
        assert(spec.drop_last().push('*') =~= spec);
    } else if has_param_piece(split_char(spec, '/')) {
        let ps = split_char(spec, '/');
        let back = segment_texts(segments_of(ps));
        assert forall|k: int| 0 <= k < ps.len() implies back[k] == ps[k] by {
            let p = ps[k];
            if p.len() > 0 && p[0] == ':' {
                assert(seq![':'] + p.drop_first() =~= p);
            }
        }
        assert(back =~= ps);
        lemma_join_split(spec, '/');
    }
}

/// Exact beats param beats prefix: whenever patterns of two different kinds both
/// match a path, the more specific kind ranks strictly higher.
pub proof fn law_kind_precedence(a: PatternV, b: PatternV, path: Seq<char>)
    requires
        pattern_score(a, path) is Some,
        pattern_score(b, path) is Some,
        (a is Exact && !(b is Exact)) || (a is Param && b is Prefix),
    ensures
        outranks(pattern_score(a, path)->0, pattern_score(b, path)->0),
{
}

/// Among prefix patterns that match, the longer prefix ranks higher; among param
/// templates that match, the one with more literal segments ranks higher.
pub proof fn law_specificity(a: PatternV, b: PatternV, path: Seq<char>)
    requires
        pattern_score(a, path) is Some,
        pattern_score(b, path) is Some,
        (a matches PatternV::Prefix(x) && b matches PatternV::Prefix(y) && utf8_len(x) > utf8_len(
            y,
        )) || (a matches PatternV::Param(x) && b matches PatternV::Param(y) && literal_count(x)
            > literal_count(y)),
    ensures
        outranks(pattern_score(a, path)->0, pattern_score(b, path)->0),
{
}

/// A path spec that does not end in `*` and has a `:name` piece anywhere is a
/// param template, and it matches every path whose `/`-separated parts line up
/// with its pieces: equal to each literal piece, non-empty under each `:name`.
/// The score is tier 2 with the number of literal pieces.
pub proof fn law_param_spec_matches_fitting_paths(spec: Seq<char>, k: int, path: Seq<char>)
    requires
        !ends_with(spec, seq!['*']),
        0 <= k < split_char(spec, '/').len(),
        split_char(spec, '/')[k].len() > 0,
        split_char(spec, '/')[k][0] == ':',
        split_char(path, '/').len() == split_char(spec, '/').len(),
        forall|j: int|
            0 <= j < split_char(spec, '/').len() ==> {
                let piece = #[trigger] split_char(spec, '/')[j];
                let part = split_char(path, '/')[j];
                if piece.len() > 0 && piece[0] == ':' {
                    part.len() > 0
                } else {
                    part == piece
                }
            },
    ensures
        pattern_of(spec) is Param,
        pattern_score(pattern_of(spec), path) == Some(
            (2nat, literal_count(segments_of(split_char(spec, '/')))),
        ),
{
    let ps = split_char(spec, '/');
    assert(has_param_piece(ps));
    let segs = segments_of(ps);
    assert forall|i: int| 0 <= i < segs.len() implies segment_fits(#[trigger] segs[i], split_char(path, '/')[i]) by {
        assert(segs[i] == segment_of(ps[i]));
    }
}

} // verus!
