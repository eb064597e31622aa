//! The config printer and parser agree: printing a parsed config and parsing the
//! text again gives the same config.

use vstd::prelude::*;

use crate::config::{
    auth_lines, auth_value, clean, close_route, config_lines, config_parse, config_text, empty_config,
    empty_shaping, field_line, fresh_route, header_value_pair, key_line, key_lines, key_text, line_text,
    named_lines, opt_field, pair_line, pair_lines, parse_from, rate_lines, rate_value, route_field,
    route_lines, route_match_lines, route_policy_lines, routes_lines, scope_list, split_first,
    strip_comment, ApiKeyView, ConfigView, PartialRoute,
};
use crate::error::ConfigErrorV;
use crate::fixed::{format_number, is_digit, law_number_round_trip, lemma_format_number_chars};
use crate::route::{
    law_pattern_round_trip, pattern_of, pattern_text, AuthV, PatternV, RateLimit, RouteView, ShapingView,
};
use crate::text::{
    find_ws, is_char, is_ws, join_with, lead_ws, lemma_first_where, lemma_first_where_is,
    lemma_split_char_len, lemma_split_char_no_sep, lemma_trail_ws_is, lemma_trim, lemma_trim_of_trimmed,
    lines, lower, lower_seq, split_char, strip_cr, trim, trim_start, trimmed, upper, upper_seq, words,
};

verus! {

// ----- character-level facts -----------------------------------------------------------

pub open spec fn no_char(s: Seq<char>, c: char) -> bool {
    forall|i: int| 0 <= i < s.len() ==> #[trigger] s[i] != c
}

pub open spec fn no_ws(s: Seq<char>) -> bool {
    forall|i: int| 0 <= i < s.len() ==> !is_ws(#[trigger] s[i])
}

/// Safe inside one config line: no comment marker and no line break.
pub open spec fn plain(s: Seq<char>) -> bool {
    no_char(s, '#') && no_char(s, '\n')
}

/// A value as the parser leaves it: trimmed and line-safe.
pub open spec fn field_ok(s: Seq<char>) -> bool {
    trimmed(s) && plain(s)
}

/// A single word: non-empty, no whitespace, no comment marker.
pub open spec fn word_ok(s: Seq<char>) -> bool {
    s.len() > 0 && no_ws(s) && no_char(s, '#')
}

/// A line the text printer can write and `lines` reads back unchanged.
pub open spec fn line_ok(l: Seq<char>) -> bool {
    no_char(l, '\n') && (l.len() == 0 || l.last() != '\r')
}

proof fn lemma_clean_plain(l: Seq<char>)
    requires
        no_char(l, '#'),
    ensures
        clean(l) == trim(l),
{
    lemma_first_where_is(l, is_char('#'), l.len() as int);
    assert(strip_comment(l) =~= l);
}

/// `split_first` of a word followed by a space and anything.
proof fn lemma_split_word(name: Seq<char>, v: Seq<char>)
    requires
        name.len() > 0,
        no_ws(name),
    ensures
        split_first(name + seq![' '] + v) == Some((name, v)),
        split_first(name) == Some((name, Seq::<char>::empty())),
{
    let s = name + seq![' '] + v;
    assert(s[0] == name[0]);
    lemma_first_where_is(s, |x: char| !is_ws(x), 0);
    assert(trim_start(s) =~= s);
    assert forall|j: int| 0 <= j < name.len() implies !(|x: char| is_ws(x))(#[trigger] s[j]) by {
        assert(s[j] == name[j]);
    }
    assert(s[name.len() as int] == ' ');
    lemma_first_where_is(s, |x: char| is_ws(x), name.len() as int);
    assert(s.take(name.len() as int) =~= name);
    assert(s.skip(name.len() as int + 1) =~= v);
    lemma_first_where_is(name, |x: char| !is_ws(x), 0);
    assert(trim_start(name) =~= name);
    lemma_first_where_is(name, |x: char| is_ws(x), name.len() as int);
}

/// Trimming `"  " + name + " " + v`, for a word and a trimmed value.
proof fn lemma_trim_field_line(name: Seq<char>, v: Seq<char>)
    requires
        name.len() > 0,
        no_ws(name),
        trimmed(v),
    ensures
        trim(seq![' ', ' '] + name + seq![' '] + v) == if v.len() > 0 {
            name + seq![' '] + v
        } else {
            name
        },
{
    let s = seq![' ', ' '] + name + seq![' '] + v;
    assert(s[2] == name[0]);
    assert(is_ws(s[0]) && is_ws(s[1]));
    lemma_first_where_is(s, |x: char| !is_ws(x), 2);
    let t = name + seq![' '] + v;
    assert(trim_start(s) =~= t);
    if v.len() > 0 {
        assert(t.last() == v.last());
        lemma_trail_ws_is(t, 0);
        assert(trim(s) =~= t);
    } else {
        assert(t[t.len() - 1] == ' ');
        assert(t[t.len() - 2] == name.last());
        lemma_trail_ws_is(t, 1);
        assert(trim(s) =~= name);
    }
}

// ----- what the parser's pieces inherit from their line ---------------------------------

proof fn lemma_plain_sub(s: Seq<char>, i: int, j: int)
    requires
        plain(s),
        0 <= i <= j <= s.len(),
    ensures
        plain(s.subrange(i, j)),
{
    assert forall|k: int| 0 <= k < j - i implies #[trigger] s.subrange(i, j)[k] != '#' && s.subrange(i, j)[k]
        != '\n' by {
        assert(s.subrange(i, j)[k] == s[i + k]);
    }
}

/// A trimmed piece of a line-safe text is a valid field value.
proof fn lemma_trim_field(s: Seq<char>)
    requires
        plain(s),
    ensures
        field_ok(trim(s)),
{
    lemma_trim(s);
    lemma_plain_sub(s, lead_ws(s), lead_ws(s) + trim(s).len());
}

/// What `split_first` hands back: a word without whitespace and a rest, both
/// pieces of its argument.
proof fn lemma_split_first_parts(s: Seq<char>)
    requires
        plain(s),
    ensures
        split_first(s) matches Some((a, b)) ==> no_ws(a) && plain(a) && plain(b),
{
    lemma_first_where(s, |x: char| !is_ws(x));
    let t = trim_start(s);
    lemma_plain_sub(s, lead_ws(s), s.len() as int);
    assert(t =~= s.subrange(lead_ws(s), s.len() as int));
    lemma_first_where(t, |x: char| is_ws(x));
    let i = find_ws(t);
    if i < t.len() {
        lemma_plain_sub(t, 0, i);
        lemma_plain_sub(t, i + 1, t.len() as int);
        assert(t.take(i) =~= t.subrange(0, i));
        assert(t.skip(i + 1) =~= t.subrange(i + 1, t.len() as int));
        assert forall|k: int| 0 <= k < t.take(i).len() implies !is_ws(#[trigger] t.take(i)[k]) by {
            assert(t.take(i)[k] == t[k]);
            assert(!(|x: char| is_ws(x))(t[k]));
        }
    } else {
        assert forall|k: int| 0 <= k < t.len() implies !is_ws(#[trigger] t[k]) by {
            assert(!(|x: char| is_ws(x))(t[k]));
        }
    }
}

/// A comment-free, trimmed line.
proof fn lemma_clean_plain_line(l: Seq<char>)
    requires
        no_char(l, '\n'),
    ensures
        field_ok(clean(l)),
{
    lemma_first_where(l, is_char('#'));
    let m = strip_comment(l);
    assert forall|k: int| 0 <= k < m.len() implies #[trigger] m[k] != '#' && m[k] != '\n' by {
        assert(m[k] == l[k]);
        assert(!is_char('#')(l[k]));
    }
    lemma_trim_field(m);
}

/// Every piece of a split keeps the line-safety of the whole.
proof fn lemma_split_char_plain(s: Seq<char>, c: char)
    requires
        plain(s),
    ensures
        forall|i: int| 0 <= i < split_char(s, c).len() ==> plain(#[trigger] split_char(s, c)[i]),
    decreases s.len(),
{
    if s.len() > 0 {
        lemma_plain_sub(s, 0, s.len() - 1);
        assert(s.drop_last() =~= s.subrange(0, s.len() - 1));
        lemma_split_char_plain(s.drop_last(), c);
        lemma_split_char_len(s.drop_last(), c);
        let r = split_char(s.drop_last(), c);
        if s.last() != c {
            let q = r.update(r.len() - 1, r.last().push(s.last()));
            assert forall|i: int| 0 <= i < q.len() implies plain(#[trigger] q[i]) by {
                if i == r.len() - 1 {
                    assert(plain(r[i]));
                    assert forall|k: int| 0 <= k < q[i].len() implies #[trigger] q[i][k] != '#' && q[i][k]
                        != '\n' by {
                        if k < r[i].len() {
                            assert(q[i][k] == r[i][k]);
                        } else {
                            assert(q[i][k] == s[s.len() - 1]);
                        }
                    }
                }
            }
        } else {
            let q = r.push(Seq::<char>::empty());
            assert forall|i: int| 0 <= i < q.len() implies plain(#[trigger] q[i]) by {
                if i < r.len() {
                    assert(q[i] == r[i]);
                }
            }
        }
    }
}

/// The lines of a text hold no line feed.
proof fn lemma_lines_no_lf(text: Seq<char>)
    ensures
        forall|i: int| 0 <= i < lines(text).len() ==> no_char(#[trigger] lines(text)[i], '\n'),
{
    lemma_split_char_no_sep(text, '\n');
    lemma_split_char_len(text, '\n');
    let ps = split_char(text, '\n');
    assert forall|i: int| 0 <= i < lines(text).len() implies no_char(#[trigger] lines(text)[i], '\n') by {
        let l = lines(text)[i];
        assert forall|k: int| 0 <= k < l.len() implies #[trigger] l[k] != '\n' by {
            assert(l[k] == ps[i][k]);
        }
    }
}

// ----- what a parsed config looks like ---------------------------------------------------

spec fn scope_ok(s: Seq<char>) -> bool {
    s.len() > 0 && field_ok(s) && no_char(s, ',')
}

spec fn key_ok(k: ApiKeyView) -> bool {
    &&& word_ok(k.key)
    &&& forall|i: int| 0 <= i < k.scopes.len() ==> scope_ok(#[trigger] k.scopes[i])
}

spec fn pair_ok(h: (Seq<char>, Seq<char>)) -> bool {
    word_ok(h.0) && field_ok(h.1)
}

spec fn opt_ok(o: Option<Seq<char>>) -> bool {
    o matches Some(x) ==> field_ok(x)
}

spec fn shaping_ok(s: ShapingView) -> bool {
    &&& forall|i: int| 0 <= i < s.remove_headers.len() ==> field_ok(#[trigger] s.remove_headers[i])
    &&& forall|i: int| 0 <= i < s.set_headers.len() ==> pair_ok(#[trigger] s.set_headers[i])
    &&& forall|i: int| 0 <= i < s.add_headers.len() ==> pair_ok(#[trigger] s.add_headers[i])
    &&& opt_ok(s.strip_prefix)
    &&& opt_ok(s.add_prefix)
}

spec fn method_ok(m: Option<Seq<char>>) -> bool {
    m matches Some(x) ==> field_ok(x) && upper_seq(x) == x
}

spec fn host_ok(h: Option<Seq<char>>) -> bool {
    h matches Some(x) ==> field_ok(x) && lower_seq(x) == x && x != "*"@
}

spec fn path_ok(p: PatternV) -> bool {
    field_ok(pattern_text(p)) && pattern_of(pattern_text(p)) == p
}

spec fn auth_ok(a: AuthV) -> bool {
    a matches AuthV::Key(Some(s)) ==> field_ok(s)
}

spec fn route_ok(r: RouteView) -> bool {
    &&& method_ok(r.method)
    &&& host_ok(r.host)
    &&& path_ok(r.path)
    &&& auth_ok(r.auth)
    &&& field_ok(r.upstream)
    &&& shaping_ok(r.shaping)
}

spec fn draft_ok(pr: PartialRoute) -> bool {
    &&& method_ok(pr.method)
    &&& host_ok(pr.host)
    &&& (pr.path matches Some(p) ==> path_ok(p))
    &&& auth_ok(pr.auth)
    &&& opt_ok(pr.upstream)
    &&& shaping_ok(pr.shaping)
}

spec fn printable(c: ConfigView) -> bool {
    &&& forall|i: int| 0 <= i < c.keys.len() ==> key_ok(#[trigger] c.keys[i])
    &&& forall|i: int| 0 <= i < c.routes.len() ==> route_ok(#[trigger] c.routes[i])
}

proof fn lemma_upper_ok(v: Seq<char>)
    requires
        field_ok(v),
    ensures
        field_ok(upper_seq(v)),
        upper_seq(upper_seq(v)) == upper_seq(v),
{
    let u = upper_seq(v);
    assert forall|k: int| 0 <= k < u.len() implies #[trigger] u[k] != '#' && u[k] != '\n' && (is_ws(u[k])
        == is_ws(v[k])) by {
        assert(u[k] == upper(v[k]));
    }
    if v.len() > 0 {
        assert(u.last() == u[u.len() - 1]);
    }
    assert(upper_seq(u) =~= u);
}

proof fn lemma_lower_ok(v: Seq<char>)
    requires
        field_ok(v),
        v != "*"@,
    ensures
        field_ok(lower_seq(v)),
        lower_seq(lower_seq(v)) == lower_seq(v),
        lower_seq(v) != "*"@,
{
    reveal_strlit("*");
    let u = lower_seq(v);
    assert forall|k: int| 0 <= k < u.len() implies #[trigger] u[k] != '#' && u[k] != '\n' && (is_ws(u[k])
        == is_ws(v[k])) by {
        assert(u[k] == lower(v[k]));
    }
    if v.len() > 0 {
        assert(u.last() == u[u.len() - 1]);
    }
    assert(lower_seq(u) =~= u);
    if u == "*"@ {
        assert(u[0] == lower(v[0]));
        assert(v =~= "*"@);
    }
}

proof fn lemma_scope_list_ok(ps: Seq<Seq<char>>)
    requires
        forall|i: int| 0 <= i < ps.len() ==> plain(#[trigger] ps[i]) && no_char(ps[i], ','),
    ensures
        forall|i: int| 0 <= i < scope_list(ps).len() ==> scope_ok(#[trigger] scope_list(ps)[i]),
    decreases ps.len(),
{
    if ps.len() > 0 {
        let p = ps.drop_last();
        assert forall|i: int| 0 <= i < p.len() implies plain(#[trigger] p[i]) && no_char(p[i], ',') by {
            assert(p[i] == ps[i]);
        }
        lemma_scope_list_ok(p);
        let l = ps.last();
        assert(plain(ps[ps.len() - 1]) && no_char(ps[ps.len() - 1], ','));
        lemma_trim(l);
        lemma_trim_field(l);
        let t = trim(l);
        assert forall|k: int| 0 <= k < t.len() implies #[trigger] t[k] != ',' by {
            assert(t[k] == l[lead_ws(l) + k]);
        }
        let r = scope_list(p);
        assert forall|i: int| 0 <= i < scope_list(ps).len() implies scope_ok(#[trigger] scope_list(ps)[i]) by {
            if i < r.len() {
                assert(scope_list(ps)[i] == r[i]);
            } else {
                assert(scope_list(ps)[i] == t);
            }
        }
    }
}

proof fn lemma_key_line_ok(rest: Seq<char>, line: nat)
    requires
        plain(rest),
    ensures
        key_line(rest, line) matches Some(Ok(k)) ==> key_ok(k),
{
    lemma_split_first_parts(rest);
    if let Some((id, tail0)) = split_first(rest) {
        if id.len() > 0 {
            lemma_trim_field(tail0);
            let tail = trim(tail0);
            if tail.len() > 0 {
                lemma_split_first_parts(tail);
                if let Some((kw, list)) = split_first(tail) {
                    lemma_split_char_plain(list, ',');
                    lemma_split_char_no_sep(list, ',');
                    let ps = split_char(list, ',');
                    assert forall|i: int| 0 <= i < ps.len() implies plain(#[trigger] ps[i]) && no_char(
                        ps[i],
                        ',',
                    ) by {
                        assert forall|j: int| 0 <= j < ps[i].len() implies #[trigger] ps[i][j] != ',' by {
                            assert(split_char(list, ',')[i][j] != ',');
                        }
                    }
                    lemma_scope_list_ok(ps);
                }
            }
        }
    }
}

proof fn lemma_auth_ok(value: Seq<char>)
    requires
        plain(value),
    ensures
        auth_value(value) matches Some(Ok(a)) ==> auth_ok(a),
{
    lemma_trim_field(value);
    let v = trim(value);
    lemma_split_first_parts(v);
    if let Some((kw, scope)) = split_first(v) {
        lemma_trim_field(scope);
    }
}

proof fn lemma_pair_ok(value: Seq<char>, line: nat)
    requires
        plain(value),
    ensures
        header_value_pair(value, line) matches Some(Ok(h)) ==> pair_ok(h),
{
    lemma_split_first_parts(value);
    if let Some((name, val)) = split_first(value) {
        lemma_trim_field(val);
    }
}

proof fn lemma_route_field_ok(pr: PartialRoute, key: Seq<char>, value: Seq<char>, line: nat)
    requires
        draft_ok(pr),
        field_ok(value),
    ensures
        route_field(pr, key, value, line) matches Some(Ok(pr2)) ==> draft_ok(pr2),
{
    if key == "method"@ {
        lemma_upper_ok(value);
    } else if key == "host"@ {
        if value != "*"@ {
            lemma_lower_ok(value);
        }
    } else if key == "path"@ {
        law_pattern_round_trip(value);
    } else if key == "auth"@ {
        lemma_auth_ok(value);
    } else if key == "set_header"@ || key == "add_header"@ {
        lemma_pair_ok(value, line);
        if let Some(Ok(pr2)) = route_field(pr, key, value, line) {
            let h = header_value_pair(value, line)->Some_0->Ok_0;
            let s2 = pr2.shaping;
            assert forall|i: int| 0 <= i < s2.set_headers.len() implies pair_ok(#[trigger] s2.set_headers[i]) by {
                if i < pr.shaping.set_headers.len() {
                    assert(s2.set_headers[i] == pr.shaping.set_headers[i] || s2.set_headers[i] == h);
                }
            }
            assert forall|i: int| 0 <= i < s2.add_headers.len() implies pair_ok(#[trigger] s2.add_headers[i]) by {
                if i < pr.shaping.add_headers.len() {
                    assert(s2.add_headers[i] == pr.shaping.add_headers[i] || s2.add_headers[i] == h);
                }
            }
        }
    } else if key == "remove_header"@ {
        let s2 = pr.shaping.remove_headers.push(value);
        assert forall|i: int| 0 <= i < s2.len() implies field_ok(#[trigger] s2[i]) by {
            if i < pr.shaping.remove_headers.len() {
                assert(s2[i] == pr.shaping.remove_headers[i]);
            }
        }
    }
}

proof fn lemma_close_ok(pr: PartialRoute, block: nat)
    requires
        draft_ok(pr),
    ensures
        close_route(pr, block) matches Ok(r) ==> route_ok(r),
{
}

/// Whatever the parser accepts, from any state whose parts are printable, is printable.
proof fn lemma_parse_ok(
    ls: Seq<Seq<char>>,
    i: int,
    acc: ConfigView,
    blocks: nat,
    open: Option<PartialRoute>,
)
    requires
        forall|j: int| 0 <= j < ls.len() ==> no_char(#[trigger] ls[j], '\n'),
        printable(acc),
        open matches Some(pr) ==> draft_ok(pr),
    ensures
        parse_from(ls, i, acc, blocks, open) matches Some(Ok(c)) ==> printable(c),
    decreases ls.len() - i,
{
    if 0 <= i < ls.len() {
        let line = clean(ls[i]);
        let lineno = (i + 1) as nat;
        lemma_clean_plain_line(ls[i]);
        if line.len() == 0 {
            lemma_parse_ok(ls, i + 1, acc, blocks, open);
        } else {
            lemma_split_first_parts(line);
            match open {
                None => {
                    if let Some((head, rest)) = split_first(line) {
                        if head == "key"@ {
                            lemma_key_line_ok(rest, lineno);
                            if let Some(Ok(k)) = key_line(rest, lineno) {
                                let acc2 = ConfigView { keys: acc.keys.push(k), ..acc };
                                assert forall|j: int| 0 <= j < acc2.keys.len() implies key_ok(
                                    #[trigger] acc2.keys[j],
                                ) by {
                                    if j < acc.keys.len() {
                                        assert(acc2.keys[j] == acc.keys[j]);
                                    }
                                }
                                lemma_parse_ok(ls, i + 1, acc2, blocks, None);
                            }
                        } else if head == "route"@ {
                            lemma_parse_ok(ls, i + 1, acc, blocks + 1, Some(fresh_route()));
                        }
                    }
                },
                Some(pr) => {
                    if line == "}"@ {
                        lemma_close_ok(pr, blocks);
                        if let Ok(r) = close_route(pr, blocks) {
                            let acc2 = ConfigView { routes: acc.routes.push(r), ..acc };
                            assert forall|j: int| 0 <= j < acc2.routes.len() implies route_ok(
                                #[trigger] acc2.routes[j],
                            ) by {
                                if j < acc.routes.len() {
                                    assert(acc2.routes[j] == acc.routes[j]);
                                }
                            }
                            lemma_parse_ok(ls, i + 1, acc2, blocks, None);
                        }
                    } else if let Some((key, value)) = split_first(line) {
                        lemma_trim_field(value);
                        lemma_route_field_ok(pr, key, trim(value), lineno);
                        if let Some(Ok(pr2)) = route_field(pr, key, trim(value), lineno) {
                            lemma_parse_ok(ls, i + 1, acc, blocks, Some(pr2));
                        }
                    }
                },
            }
        }
    }
}

/// Every config the parser accepts is one the printer writes line-safely.
proof fn lemma_parsed_printable(text: Seq<char>)
    ensures
        config_parse(text) matches Some(Ok(c)) ==> printable(c),
{
    lemma_lines_no_lf(text);
    lemma_parse_ok(lines(text), 0, empty_config(), 0, None);
}

// ----- reading printed lines back --------------------------------------------------------

proof fn lemma_split_extend(x: Seq<char>, l: Seq<char>, c: char)
    requires
        no_char(l, c),
    ensures
        split_char(x + l, c) == split_char(x, c).update(
            split_char(x, c).len() - 1,
            split_char(x, c).last() + l,
        ),
    decreases l.len(),
{
    lemma_split_char_len(x, c);
    if l.len() == 0 {
        assert(x + l =~= x);
        assert(split_char(x, c).last() + l =~= split_char(x, c).last());
        assert(split_char(x, c).update(split_char(x, c).len() - 1, split_char(x, c).last()) =~= split_char(
            x,
            c,
        ));
    } else {
        let l2 = l.drop_last();
        assert forall|i: int| 0 <= i < l2.len() implies #[trigger] l2[i] != c by {
            assert(l2[i] == l[i]);
        }
        lemma_split_extend(x, l2, c);
        assert((x + l).drop_last() =~= x + l2);
        assert((x + l).last() == l.last());
        assert(l.last() != c);
        let r = split_char(x, c);
        let r2 = split_char(x + l2, c);
        lemma_split_char_len(x + l2, c);
        assert(r2.last() == r.last() + l2);
        assert(r2.last().push(l.last()) =~= r.last() + l);
        assert(r2.update(r2.len() - 1, r2.last().push(l.last())) =~= r.update(r.len() - 1, r.last() + l));
    }
}

proof fn lemma_split_line_text(ls: Seq<Seq<char>>)
    requires
        forall|i: int| 0 <= i < ls.len() ==> no_char(#[trigger] ls[i], '\n'),
    ensures
        split_char(line_text(ls), '\n') == ls.push(Seq::<char>::empty()),
    decreases ls.len(),
{
    if ls.len() == 0 {
        assert(line_text(ls) =~= Seq::<char>::empty());
        assert(split_char(Seq::<char>::empty(), '\n') =~= ls.push(Seq::<char>::empty()));
    } else {
        let p = ls.drop_last();
        assert forall|i: int| 0 <= i < p.len() implies no_char(#[trigger] p[i], '\n') by {
            assert(p[i] == ls[i]);
        }
        lemma_split_line_text(p);
        let x = line_text(p);
        let l = ls.last();
        assert(no_char(ls[ls.len() - 1], '\n'));
        lemma_split_extend(x, l, '\n');
        assert(line_text(ls) == x + l.push('\n'));
        assert(x + l.push('\n') =~= (x + l).push('\n'));
        assert(split_char((x + l).push('\n'), '\n') == split_char(x + l, '\n').push(Seq::<char>::empty())) by {
            assert((x + l).push('\n').drop_last() =~= x + l);
        }
        let q = p.push(Seq::<char>::empty());
        assert(q.update(q.len() - 1, q.last() + l) =~= ls);
    }
}

/// `lines` reads back the lines that `line_text` wrote, when no line holds a
/// line feed or ends in a carriage return.
pub proof fn lemma_lines_of_line_text(ls: Seq<Seq<char>>)
    requires
        forall|i: int| 0 <= i < ls.len() ==> line_ok(#[trigger] ls[i]),
    ensures
        lines(line_text(ls)) == ls,
{
    assert forall|i: int| 0 <= i < ls.len() implies no_char(#[trigger] ls[i], '\n') by {
        assert(line_ok(ls[i]));
    }
    lemma_split_line_text(ls);
    let ps = ls.push(Seq::<char>::empty());
    assert forall|i: int| 0 <= i < ls.len() implies strip_cr(#[trigger] ps[i]) == ls[i] by {
        assert(ps[i] == ls[i]);
        assert(line_ok(ls[i]));
    }
    assert(lines(line_text(ls)) =~= ls);
}

// ----- cleaning printed lines ---------------------------------------------------------------

/// `trim` of a text whose non-whitespace content runs from `a` to `e`.
proof fn lemma_trim_range(s: Seq<char>, a: int, e: int)
    requires
        0 <= a < e <= s.len(),
        forall|k: int| 0 <= k < a ==> is_ws(#[trigger] s[k]),
        !is_ws(s[a]),
        !is_ws(s[e - 1]),
        forall|k: int| e <= k < s.len() ==> is_ws(#[trigger] s[k]),
    ensures
        trim(s) == s.subrange(a, e),
{
    assert forall|k: int| 0 <= k < a implies !(|x: char| !is_ws(x))(#[trigger] s[k]) by {
        assert(is_ws(s[k]));
    }
    lemma_first_where_is(s, |x: char| !is_ws(x), a);
    let t = trim_start(s);
    assert(t =~= s.skip(a));
    let k = s.len() - e;
    assert forall|j: int| t.len() - k <= j < t.len() implies is_ws(#[trigger] t[j]) by {
        assert(t[j] == s[a + j]);
    }
    assert(t[t.len() - k - 1] == s[e - 1]);
    lemma_trail_ws_is(t, k);
    assert(trim(s) =~= s.subrange(a, e));
}

/// A directive word the printer writes.
spec fn name_ok(n: Seq<char>) -> bool {
    word_ok(n) && no_char(n, '\n') && n[0] != '}'
}

proof fn lemma_names()
    ensures
        name_ok("key"@),
        name_ok("route"@),
        name_ok("method"@),
        name_ok("host"@),
        name_ok("path"@),
        name_ok("auth"@),
        name_ok("rate"@),
        name_ok("upstream"@),
        name_ok("strip_prefix"@),
        name_ok("add_prefix"@),
        name_ok("remove_header"@),
        name_ok("set_header"@),
        name_ok("add_header"@),
        name_ok("scopes"@),
        name_ok("scope"@),
        name_ok("burst"@),
{
    reveal_strlit("key");
    reveal_strlit("route");
    reveal_strlit("method");
    reveal_strlit("host");
    reveal_strlit("path");
    reveal_strlit("auth");
    reveal_strlit("rate");
    reveal_strlit("upstream");
    reveal_strlit("strip_prefix");
    reveal_strlit("add_prefix");
    reveal_strlit("remove_header");
    reveal_strlit("set_header");
    reveal_strlit("add_header");
    reveal_strlit("scopes");
    reveal_strlit("scope");
    reveal_strlit("burst");
}

proof fn lemma_no_char_cat(a: Seq<char>, b: Seq<char>, c: char)
    requires
        no_char(a, c),
        no_char(b, c),
    ensures
        no_char(a + b, c),
{
    assert forall|k: int| 0 <= k < (a + b).len() implies #[trigger] (a + b)[k] != c by {
        if k < a.len() {
            assert((a + b)[k] == a[k]);
        } else {
            assert((a + b)[k] == b[k - a.len()]);
        }
    }
}

proof fn lemma_plain_cat(a: Seq<char>, b: Seq<char>)
    requires
        plain(a),
        plain(b),
    ensures
        plain(a + b),
{
    lemma_no_char_cat(a, b, '#');
    lemma_no_char_cat(a, b, '\n');
}

/// The indented field line of a word and a value: what `clean` leaves of it.
proof fn lemma_clean_field(name: Seq<char>, v: Seq<char>)
    requires
        name_ok(name),
        field_ok(v),
    ensures
        clean(field_line(name, v)) == (if v.len() > 0 {
            name + seq![' '] + v
        } else {
            name
        }),
        line_ok(field_line(name, v)),
{
    reveal_strlit("  ");
    reveal_strlit(" ");
    let l = field_line(name, v);
    assert(l =~= seq![' ', ' '] + name + seq![' '] + v);
    assert(plain(seq![' ', ' ']));
    assert(plain(seq![' ']));
    lemma_plain_cat(seq![' ', ' '], name);
    lemma_plain_cat(seq![' ', ' '] + name, seq![' ']);
    lemma_plain_cat(seq![' ', ' '] + name + seq![' '], v);
    lemma_clean_plain(l);
    lemma_trim_field_line(name, v);
    if v.len() > 0 {
        assert(l.last() == v.last());
    }
}

/// The field line of a word and a value followed by one space.
proof fn lemma_clean_field_pad(name: Seq<char>, w: Seq<char>)
    requires
        name_ok(name),
        field_ok(w),
        w.len() > 0,
    ensures
        clean(field_line(name, w + " "@)) == name + seq![' '] + w,
        line_ok(field_line(name, w + " "@)),
{
    reveal_strlit("  ");
    reveal_strlit(" ");
    let l = field_line(name, w + " "@);
    assert(l =~= seq![' ', ' '] + name + seq![' '] + w + seq![' ']);
    assert(plain(seq![' ', ' ']));
    assert(plain(seq![' ']));
    lemma_plain_cat(seq![' ', ' '], name);
    lemma_plain_cat(seq![' ', ' '] + name, seq![' ']);
    lemma_plain_cat(seq![' ', ' '] + name + seq![' '], w);
    lemma_plain_cat(seq![' ', ' '] + name + seq![' '] + w, seq![' ']);
    lemma_clean_plain(l);
    assert(l[2] == name[0]);
    assert(l[l.len() - 2] == w.last());
    lemma_trim_range(l, 2, l.len() - 1);
    assert(l.subrange(2, l.len() - 1) =~= name + seq![' '] + w);
}

proof fn lemma_clean_auth()
    ensures
        clean("  "@ + "auth"@) == "auth"@,
        line_ok("  "@ + "auth"@),
{
    reveal_strlit("  ");
    reveal_strlit("auth");
    let l = "  "@ + "auth"@;
    assert(l =~= seq![' ', ' ', 'a', 'u', 't', 'h']);
    assert(no_char(l, '#'));
    lemma_clean_plain(l);
    lemma_trim_range(l, 2, 6);
    assert(l.subrange(2, 6) =~= "auth"@);
}

/// One field line inside an open route block.
proof fn lemma_field_step(
    ls: Seq<Seq<char>>,
    i: int,
    acc: ConfigView,
    blocks: nat,
    pr: PartialRoute,
    name: Seq<char>,
    w: Seq<char>,
    pr2: PartialRoute,
)
    requires
        0 <= i < ls.len(),
        name_ok(name),
        clean(ls[i]) == (if w.len() > 0 {
            name + seq![' '] + w
        } else {
            name
        }),
        route_field(pr, name, trim(w), (i + 1) as nat) == Some(Ok::<PartialRoute, ConfigErrorV>(pr2)),
    ensures
        parse_from(ls, i, acc, blocks, Some(pr)) == parse_from(ls, i + 1, acc, blocks, Some(pr2)),
{
    reveal_strlit("}");
    let line = clean(ls[i]);
    assert(line[0] == name[0]);
    assert(line != "}"@);
    lemma_split_word(name, w);
    if w.len() == 0 {
        assert(w =~= Seq::<char>::empty());
    }
    assert(split_first(line) == Some((name, w)));
}

/// A line that cleans to nothing is skipped.
proof fn lemma_blank_step(
    ls: Seq<Seq<char>>,
    i: int,
    acc: ConfigView,
    blocks: nat,
    open: Option<PartialRoute>,
)
    requires
        0 <= i < ls.len(),
        ls[i].len() == 0,
    ensures
        parse_from(ls, i, acc, blocks, open) == parse_from(ls, i + 1, acc, blocks, open),
{
    lemma_first_where(ls[i], is_char('#'));
    assert(clean(ls[i]).len() == 0);
}

// ----- reading a printed route block ------------------------------------------------------

proof fn lemma_sub_part(ls: Seq<Seq<char>>, i: int, m: Seq<Seq<char>>, o: int, x: Seq<Seq<char>>)
    requires
        0 <= i,
        i + m.len() <= ls.len(),
        ls.subrange(i, i + m.len()) == m,
        0 <= o,
        o + x.len() <= m.len(),
        m.subrange(o, o + x.len()) == x,
    ensures
        ls.subrange(i + o, i + o + x.len()) == x,
{
    assert forall|k: int| 0 <= k < x.len() implies #[trigger] ls.subrange(i + o, i + o + x.len())[k] == x[k] by {
        assert(ls.subrange(i, i + m.len())[o + k] == m[o + k]);
        assert(m.subrange(o, o + x.len())[k] == m[o + k]);
    }
    assert(ls.subrange(i + o, i + o + x.len()) =~= x);
}

proof fn lemma_route_open(ls: Seq<Seq<char>>, i: int, acc: ConfigView, blocks: nat)
    requires
        0 <= i < ls.len(),
        ls[i] == "route {"@,
    ensures
        parse_from(ls, i, acc, blocks, None) == parse_from(ls, i + 1, acc, blocks + 1, Some(fresh_route())),
        line_ok("route {"@),
{
    reveal_strlit("route {");
    reveal_strlit("route");
    reveal_strlit("{");
    reveal_strlit("key");
    lemma_names();
    let l = ls[i];
    assert(no_char(l, '#'));
    lemma_clean_plain(l);
    lemma_trim_of_trimmed(l);
    assert(l =~= "route"@ + seq![' '] + "{"@);
    lemma_split_word("route"@, "{"@);
    lemma_trim_of_trimmed("{"@);
}

proof fn lemma_route_close(
    ls: Seq<Seq<char>>,
    i: int,
    acc: ConfigView,
    blocks: nat,
    pr: PartialRoute,
    r: RouteView,
)
    requires
        0 <= i < ls.len(),
        ls[i] == "}"@,
        close_route(pr, blocks) == Ok::<RouteView, ConfigErrorV>(r),
    ensures
        parse_from(ls, i, acc, blocks, Some(pr)) == parse_from(
            ls,
            i + 1,
            ConfigView { routes: acc.routes.push(r), ..acc },
            blocks,
            None,
        ),
        line_ok("}"@),
{
    reveal_strlit("}");
    let l = ls[i];
    assert(no_char(l, '#'));
    lemma_clean_plain(l);
    lemma_trim_of_trimmed(l);
}

/// An optional field: one line when it is set, none when it is not.
proof fn lemma_opt_step(
    ls: Seq<Seq<char>>,
    i: int,
    acc: ConfigView,
    blocks: nat,
    pr: PartialRoute,
    name: Seq<char>,
    v: Option<Seq<char>>,
    pr2: PartialRoute,
)
    requires
        name_ok(name),
        0 <= i,
        i + opt_field(name, v).len() <= ls.len(),
        ls.subrange(i, i + opt_field(name, v).len()) == opt_field(name, v),
        v matches Some(x) ==> field_ok(x) && route_field(pr, name, x, (i + 1) as nat) == Some(
            Ok::<PartialRoute, ConfigErrorV>(pr2),
        ),
        v is None ==> pr2 == pr,
    ensures
        parse_from(ls, i, acc, blocks, Some(pr)) == parse_from(
            ls,
            i + opt_field(name, v).len(),
            acc,
            blocks,
            Some(pr2),
        ),
        forall|k: int| 0 <= k < opt_field(name, v).len() ==> line_ok(#[trigger] opt_field(name, v)[k]),
{
    if let Some(x) = v {
        assert(ls.subrange(i, i + 1)[0] == ls[i]);
        lemma_clean_field(name, x);
        lemma_trim_of_trimmed(x);
        lemma_field_step(ls, i, acc, blocks, pr, name, x, pr2);
    }
}

spec fn draft_match(r: RouteView) -> PartialRoute {
    PartialRoute { method: r.method, host: r.host, path: Some(r.path), ..fresh_route() }
}

/// `route {`, the method, the host and the path of a printed route.
proof fn lemma_route_match(ls: Seq<Seq<char>>, i: int, acc: ConfigView, blocks: nat, r: RouteView)
    requires
        route_ok(r),
        0 <= i,
        i + route_match_lines(r).len() <= ls.len(),
        ls.subrange(i, i + route_match_lines(r).len()) == route_match_lines(r),
    ensures
        parse_from(ls, i, acc, blocks, None) == parse_from(
            ls,
            i + route_match_lines(r).len(),
            acc,
            blocks + 1,
            Some(draft_match(r)),
        ),
        forall|k: int| 0 <= k < route_match_lines(r).len() ==> line_ok(#[trigger] route_match_lines(r)[k]),
{
    lemma_names();
    reveal_strlit("method");
    reveal_strlit("host");
    reveal_strlit("path");
    reveal_strlit("*");
    let m = route_match_lines(r);
    let a = seq!["route {"@];
    let b = opt_field("method"@, r.method);
    let c = opt_field("host"@, r.host);
    let d = seq![field_line("path"@, pattern_text(r.path))];
    let nb: int = b.len() as int;
    let nc: int = c.len() as int;
    assert(m =~= a + b + c + d);
    assert(ls.subrange(i, i + m.len())[0] == ls[i]);
    lemma_route_open(ls, i, acc, blocks);
    let d0 = fresh_route();
    let d1 = PartialRoute { method: r.method, ..d0 };
    let d2 = PartialRoute { host: r.host, ..d1 };
    let d3 = draft_match(r);
    // the method line
    let i1 = i + 1;
    assert(m.subrange(1, 1 + nb) =~= b);
    lemma_sub_part(ls, i, m, 1, b);
    if let Some(x) = r.method {
        assert(route_field(d0, "method"@, x, (i1 + 1) as nat) == Some(Ok::<PartialRoute, ConfigErrorV>(d1)));
    }
    lemma_opt_step(ls, i1, acc, blocks + 1, d0, "method"@, r.method, d1);
    // the host line
    let i2 = i1 + b.len();
    assert(m.subrange(1 + nb, 1 + nb + nc) =~= c);
    lemma_sub_part(ls, i, m, 1 + nb, c);
    if let Some(x) = r.host {
        assert(route_field(d1, "host"@, x, (i2 + 1) as nat) == Some(Ok::<PartialRoute, ConfigErrorV>(d2)));
    }
    lemma_opt_step(ls, i2, acc, blocks + 1, d1, "host"@, r.host, d2);
    // the path line
    let i3 = i2 + c.len();
    assert(m.subrange(1 + nb + nc, m.len() as int) =~= d);
    lemma_sub_part(ls, i, m, 1 + nb + nc, d);
    assert(ls.subrange(i3, i3 + 1)[0] == ls[i3]);
    let p = pattern_text(r.path);
    lemma_clean_field("path"@, p);
    lemma_trim_of_trimmed(p);
    assert(route_field(d2, "path"@, p, (i3 + 1) as nat) == Some(Ok::<PartialRoute, ConfigErrorV>(d3)));
    lemma_field_step(ls, i3, acc, blocks + 1, d2, "path"@, p, d3);
    assert forall|k: int| 0 <= k < m.len() implies line_ok(#[trigger] m[k]) by {
        lemma_route_open(ls, i, acc, blocks);
        lemma_opt_step(ls, i1, acc, blocks + 1, d0, "method"@, r.method, d1);
        lemma_opt_step(ls, i2, acc, blocks + 1, d1, "host"@, r.host, d2);
        if k == 0 {
        } else if k < 1 + b.len() {
            assert(m[k] == b[k - 1]);
        } else if k < 1 + b.len() + c.len() {
            assert(m[k] == c[k - 1 - b.len()]);
        } else {
            assert(m[k] == d[0]);
        }
    }
}

proof fn lemma_auth_step(
    ls: Seq<Seq<char>>,
    i: int,
    acc: ConfigView,
    blocks: nat,
    pr: PartialRoute,
    a: AuthV,
)
    requires
        auth_ok(a),
        pr.auth == AuthV::Anonymous,
        0 <= i,
        i + auth_lines(a).len() <= ls.len(),
        ls.subrange(i, i + auth_lines(a).len()) == auth_lines(a),
    ensures
        parse_from(ls, i, acc, blocks, Some(pr)) == parse_from(
            ls,
            i + auth_lines(a).len(),
            acc,
            blocks,
            Some(PartialRoute { auth: a, ..pr }),
        ),
        forall|k: int| 0 <= k < auth_lines(a).len() ==> line_ok(#[trigger] auth_lines(a)[k]),
{
    lemma_names();
    reveal_strlit("method");
    reveal_strlit("host");
    reveal_strlit("path");
    reveal_strlit("auth");
    reveal_strlit("scope");
    reveal_strlit("scope ");
    reveal_strlit(" ");
    let pr2 = PartialRoute { auth: a, ..pr };
    let e = Seq::<char>::empty();
    lemma_trim_of_trimmed(e);
    match a {
        AuthV::Anonymous => {
            assert(pr2 == pr);
        },
        AuthV::Key(None) => {
            assert(ls.subrange(i, i + 1)[0] == ls[i]);
            lemma_clean_auth();
            assert(auth_value(e) == Some(Ok::<AuthV, ConfigErrorV>(a)));
            lemma_field_step(ls, i, acc, blocks, pr, "auth"@, e, pr2);
        },
        AuthV::Key(Some(sc)) => {
            assert(ls.subrange(i, i + 1)[0] == ls[i]);
            if sc.len() > 0 {
                let v = "scope "@ + sc;
                assert(v =~= "scope"@ + seq![' '] + sc);
                assert(v[0] == 's');
                assert(v.last() == sc.last());
                lemma_plain_cat("scope "@, sc);
                lemma_clean_field("auth"@, v);
                lemma_trim_of_trimmed(v);
                lemma_trim_of_trimmed(sc);
                lemma_split_word("scope"@, sc);
                assert(auth_value(v) == Some(Ok::<AuthV, ConfigErrorV>(a)));
                lemma_field_step(ls, i, acc, blocks, pr, "auth"@, v, pr2);
            } else {
                let w = "scope"@;
                assert(sc =~= e);
                assert("scope "@ + sc =~= w + " "@);
                lemma_clean_field_pad("auth"@, w);
                lemma_trim_of_trimmed(w);
                lemma_split_word(w, e);
                assert(auth_value(w) == Some(Ok::<AuthV, ConfigErrorV>(a)));
                lemma_field_step(ls, i, acc, blocks, pr, "auth"@, w, pr2);
            }
        },
    }
    assert forall|k: int| 0 <= k < auth_lines(a).len() implies line_ok(#[trigger] auth_lines(a)[k]) by {
        lemma_clean_auth();
        if let AuthV::Key(Some(sc)) = a {
            if sc.len() > 0 {
                let v = "scope "@ + sc;
                assert(v[0] == 's');
                assert(v.last() == sc.last());
                lemma_plain_cat("scope "@, sc);
                lemma_clean_field("auth"@, v);
            } else {
                assert("scope "@ + sc =~= "scope"@ + " "@);
                lemma_clean_field_pad("auth"@, "scope"@);
            }
        }
    }
}

/// `split_whitespace` of a text that ends in whitespace, followed by one word.
proof fn lemma_words_tail(s: Seq<char>, w: Seq<char>)
    requires
        s.len() == 0 || is_ws(s.last()),
        w.len() > 0,
        no_ws(w),
    ensures
        words(s + w) == words(s).push(w),
    decreases w.len(),
{
    let t = s + w;
    if w.len() == 1 {
        assert(t.drop_last() =~= s);
        assert(t.last() == w[0]);
        assert(seq![w[0]] =~= w);
        if s.len() > 0 {
            assert(t[t.len() - 2] == s.last());
        }
    } else {
        let w2 = w.drop_last();
        assert forall|k: int| 0 <= k < w2.len() implies !is_ws(#[trigger] w2[k]) by {
            assert(w2[k] == w[k]);
        }
        lemma_words_tail(s, w2);
        assert(t.drop_last() =~= s + w2);
        assert(t.last() == w.last());
        assert(t[t.len() - 2] == w[w.len() - 2]);
        let r = words(s + w2);
        assert(r.last() == w2);
        assert(w2.push(w.last()) =~= w);
        assert(r.update(r.len() - 1, r.last().push(w.last())) =~= words(s).push(w));
    }
}

/// The value of a printed `rate` line reads back as the same limit.
proof fn lemma_rate_value(l: RateLimit, line: nat)
    ensures
        field_ok(format_number(l.rate_nanos) + "/s burst "@ + format_number(l.burst_nanos)),
        rate_value(format_number(l.rate_nanos) + "/s burst "@ + format_number(l.burst_nanos), line) == Ok::<
            RateLimit,
            ConfigErrorV,
        >(l),
{
    reveal_strlit("/s burst ");
    reveal_strlit("/s");
    reveal_strlit("burst");
    let a = format_number(l.rate_nanos);
    let c = format_number(l.burst_nanos);
    lemma_format_number_chars(l.rate_nanos);
    lemma_format_number_chars(l.burst_nanos);
    let v = a + "/s burst "@ + c;
    let aa = a + "/s"@;
    let b = "burst"@;
    assert(v =~= aa + seq![' '] + b + seq![' '] + c);
    assert forall|k: int| 0 <= k < v.len() implies #[trigger] v[k] != '#' && v[k] != '\n' by {
        if k < a.len() {
            assert(v[k] == a[k]);
        } else if k >= a.len() + 9 {
            assert(v[k] == c[k - a.len() - 9]);
        }
    }
    assert(v[0] == a[0]);
    assert(v.last() == c.last());
    assert(c.last() == c[c.len() - 1]);
    assert forall|k: int| 0 <= k < aa.len() implies !is_ws(#[trigger] aa[k]) by {
        if k < a.len() {
            assert(aa[k] == a[k]);
        }
    }
    assert forall|k: int| 0 <= k < c.len() implies !is_ws(#[trigger] c[k]) by {
        assert(is_digit(c[k]) || c[k] == '.');
    }
    let e = Seq::<char>::empty();
    lemma_words_tail(e, aa);
    assert(e + aa =~= aa);
    let s1 = aa.push(' ');
    assert(s1.drop_last() =~= aa);
    assert(words(s1) == words(aa));
    lemma_words_tail(s1, b);
    let s2 = (s1 + b).push(' ');
    assert(s2.drop_last() =~= s1 + b);
    assert(words(s2) == words(s1 + b));
    lemma_words_tail(s2, c);
    assert(s2 + c =~= v);
    let ws = words(v);
    assert(ws =~= seq![aa, b, c]);
    assert(aa.skip(aa.len() - 2) =~= "/s"@);
    assert(aa.take(aa.len() - 2) =~= a);
    law_number_round_trip(l.rate_nanos);
    law_number_round_trip(l.burst_nanos);
}

proof fn lemma_rate_step(
    ls: Seq<Seq<char>>,
    i: int,
    acc: ConfigView,
    blocks: nat,
    pr: PartialRoute,
    rt: Option<RateLimit>,
)
    requires
        pr.rate is None,
        0 <= i,
        i + rate_lines(rt).len() <= ls.len(),
        ls.subrange(i, i + rate_lines(rt).len()) == rate_lines(rt),
    ensures
        parse_from(ls, i, acc, blocks, Some(pr)) == parse_from(
            ls,
            i + rate_lines(rt).len(),
            acc,
            blocks,
            Some(PartialRoute { rate: rt, ..pr }),
        ),
        forall|k: int| 0 <= k < rate_lines(rt).len() ==> line_ok(#[trigger] rate_lines(rt)[k]),
{
    let pr2 = PartialRoute { rate: rt, ..pr };
    if let Some(l) = rt {
        lemma_names();
        reveal_strlit("method");
        reveal_strlit("host");
        reveal_strlit("path");
        reveal_strlit("auth");
        reveal_strlit("rate");
        assert(ls.subrange(i, i + 1)[0] == ls[i]);
        let v = format_number(l.rate_nanos) + "/s burst "@ + format_number(l.burst_nanos);
        lemma_rate_value(l, (i + 1) as nat);
        lemma_clean_field("rate"@, v);
        lemma_trim_of_trimmed(v);
        assert(route_field(pr, "rate"@, v, (i + 1) as nat) == Some(Ok::<PartialRoute, ConfigErrorV>(pr2)));
        lemma_field_step(ls, i, acc, blocks, pr, "rate"@, v, pr2);
    } else {
        assert(pr2 == pr);
    }
}

spec fn draft_policy(r: RouteView) -> PartialRoute {
    PartialRoute {
        auth: r.auth,
        rate: r.rate,
        upstream: Some(r.upstream),
        shaping: ShapingView {
            strip_prefix: r.shaping.strip_prefix,
            add_prefix: r.shaping.add_prefix,
            ..empty_shaping()
        },
        ..draft_match(r)
    }
}

/// Auth, rate, upstream and the path rewrites of a printed route.
proof fn lemma_route_policy(ls: Seq<Seq<char>>, i: int, acc: ConfigView, blocks: nat, r: RouteView)
    requires
        route_ok(r),
        0 <= i,
        i + route_policy_lines(r).len() <= ls.len(),
        ls.subrange(i, i + route_policy_lines(r).len()) == route_policy_lines(r),
    ensures
        parse_from(ls, i, acc, blocks, Some(draft_match(r))) == parse_from(
            ls,
            i + route_policy_lines(r).len(),
            acc,
            blocks,
            Some(draft_policy(r)),
        ),
        forall|k: int| 0 <= k < route_policy_lines(r).len() ==> line_ok(#[trigger] route_policy_lines(r)[k]),
{
    lemma_names();
    reveal_strlit("method");
    reveal_strlit("host");
    reveal_strlit("path");
    reveal_strlit("auth");
    reveal_strlit("rate");
    reveal_strlit("upstream");
    reveal_strlit("strip_prefix");
    reveal_strlit("add_prefix");
    let m = route_policy_lines(r);
    let a = auth_lines(r.auth);
    let b = rate_lines(r.rate);
    let u = seq![field_line("upstream"@, r.upstream)];
    let sp = opt_field("strip_prefix"@, r.shaping.strip_prefix);
    let ap = opt_field("add_prefix"@, r.shaping.add_prefix);
    assert(m =~= a + b + u + sp + ap);
    let na: int = a.len() as int;
    let nb: int = b.len() as int;
    let ns: int = sp.len() as int;
    let p0 = draft_match(r);
    let p1 = PartialRoute { auth: r.auth, ..p0 };
    let p2 = PartialRoute { rate: r.rate, ..p1 };
    let p3 = PartialRoute { upstream: Some(r.upstream), ..p2 };
    let p4 = PartialRoute { shaping: ShapingView { strip_prefix: r.shaping.strip_prefix, ..p3.shaping }, ..p3 };
    let p5 = draft_policy(r);
    // auth
    assert(m.subrange(0, na) =~= a);
    lemma_sub_part(ls, i, m, 0, a);
    lemma_auth_step(ls, i, acc, blocks, p0, r.auth);
    // rate
    let i2 = i + na;
    assert(m.subrange(na, na + nb) =~= b);
    lemma_sub_part(ls, i, m, na, b);
    lemma_rate_step(ls, i2, acc, blocks, p1, r.rate);
    // upstream
    let i3 = i2 + nb;
    assert(m.subrange(na + nb, na + nb + 1) =~= u);
    lemma_sub_part(ls, i, m, na + nb, u);
    assert(ls.subrange(i3, i3 + 1)[0] == ls[i3]);
    lemma_clean_field("upstream"@, r.upstream);
    lemma_trim_of_trimmed(r.upstream);
    assert(route_field(p2, "upstream"@, r.upstream, (i3 + 1) as nat) == Some(Ok::<PartialRoute, ConfigErrorV>(p3)));
    lemma_field_step(ls, i3, acc, blocks, p2, "upstream"@, r.upstream, p3);
    // strip_prefix
    let i4 = i3 + 1;
    assert(m.subrange(na + nb + 1, na + nb + 1 + ns) =~= sp);
    lemma_sub_part(ls, i, m, na + nb + 1, sp);
    if let Some(x) = r.shaping.strip_prefix {
        assert(route_field(p3, "strip_prefix"@, x, (i4 + 1) as nat) == Some(Ok::<PartialRoute, ConfigErrorV>(p4)));
    } else {
        assert(p4 == p3);
    }
    lemma_opt_step(ls, i4, acc, blocks, p3, "strip_prefix"@, r.shaping.strip_prefix, p4);
    // add_prefix
    let i5 = i4 + ns;
    assert(m.subrange(na + nb + 1 + ns, m.len() as int) =~= ap);
    lemma_sub_part(ls, i, m, na + nb + 1 + ns, ap);
    if let Some(x) = r.shaping.add_prefix {
        assert(route_field(p4, "add_prefix"@, x, (i5 + 1) as nat) == Some(Ok::<PartialRoute, ConfigErrorV>(p5)));
    } else {
        assert(p5 == p4);
    }
    lemma_opt_step(ls, i5, acc, blocks, p4, "add_prefix"@, r.shaping.add_prefix, p5);
    assert forall|k: int| 0 <= k < m.len() implies line_ok(#[trigger] m[k]) by {
        if k < na {
            assert(m[k] == a[k]);
        } else if k < na + nb {
            assert(m[k] == b[k - na]);
        } else if k == na + nb {
            assert(m[k] == u[0]);
        } else if k < na + nb + 1 + ns {
            assert(m[k] == sp[k - na - nb - 1]);
        } else {
            assert(m[k] == ap[k - na - nb - 1 - ns]);
        }
    }
}

proof fn lemma_reveal_fields()
    ensures
        "method"@ =~= seq!['m', 'e', 't', 'h', 'o', 'd'],
        "host"@ =~= seq!['h', 'o', 's', 't'],
        "path"@ =~= seq!['p', 'a', 't', 'h'],
        "auth"@ =~= seq!['a', 'u', 't', 'h'],
        "rate"@ =~= seq!['r', 'a', 't', 'e'],
        "upstream"@ =~= seq!['u', 'p', 's', 't', 'r', 'e', 'a', 'm'],
        "strip_prefix"@ =~= seq!['s', 't', 'r', 'i', 'p', '_', 'p', 'r', 'e', 'f', 'i', 'x'],
        "add_prefix"@ =~= seq!['a', 'd', 'd', '_', 'p', 'r', 'e', 'f', 'i', 'x'],
        "set_header"@ =~= seq!['s', 'e', 't', '_', 'h', 'e', 'a', 'd', 'e', 'r'],
        "add_header"@ =~= seq!['a', 'd', 'd', '_', 'h', 'e', 'a', 'd', 'e', 'r'],
        "remove_header"@ =~= seq!['r', 'e', 'm', 'o', 'v', 'e', '_', 'h', 'e', 'a', 'd', 'e', 'r'],
{
    reveal_strlit("method");
    reveal_strlit("host");
    reveal_strlit("path");
    reveal_strlit("auth");
    reveal_strlit("rate");
    reveal_strlit("upstream");
    reveal_strlit("strip_prefix");
    reveal_strlit("add_prefix");
    reveal_strlit("set_header");
    reveal_strlit("add_header");
    reveal_strlit("remove_header");
}

spec fn with_removed(pr: PartialRoute, vs: Seq<Seq<char>>) -> PartialRoute {
    PartialRoute {
        shaping: ShapingView { remove_headers: pr.shaping.remove_headers + vs, ..pr.shaping },
        ..pr
    }
}

proof fn lemma_remove_steps(
    ls: Seq<Seq<char>>,
    i: int,
    acc: ConfigView,
    blocks: nat,
    pr: PartialRoute,
    vs: Seq<Seq<char>>,
)
    requires
        forall|j: int| 0 <= j < vs.len() ==> field_ok(#[trigger] vs[j]),
        0 <= i,
        i + vs.len() <= ls.len(),
        ls.subrange(i, i + vs.len()) == named_lines("remove_header"@, vs),
    ensures
        parse_from(ls, i, acc, blocks, Some(pr)) == parse_from(
            ls,
            i + vs.len(),
            acc,
            blocks,
            Some(with_removed(pr, vs)),
        ),
        forall|k: int|
            0 <= k < named_lines("remove_header"@, vs).len() ==> line_ok(
                #[trigger] named_lines("remove_header"@, vs)[k],
            ),
    decreases vs.len(),
{
    let name = "remove_header"@;
    if vs.len() == 0 {
        assert(pr.shaping.remove_headers + vs =~= pr.shaping.remove_headers);
        assert(with_removed(pr, vs) == pr);
    } else {
        lemma_names();
        lemma_reveal_fields();
        let m = named_lines(name, vs);
        let x = vs[0];
        let rest = vs.drop_first();
        assert(ls.subrange(i, i + vs.len())[0] == ls[i]);
        assert(m[0] == field_line(name, x));
        lemma_clean_field(name, x);
        lemma_trim_of_trimmed(x);
        let pr1 = with_removed(pr, seq![x]);
        assert(pr.shaping.remove_headers + seq![x] =~= pr.shaping.remove_headers.push(x));
        assert(route_field(pr, name, x, (i + 1) as nat) == Some(Ok::<PartialRoute, ConfigErrorV>(pr1)));
        lemma_field_step(ls, i, acc, blocks, pr, name, x, pr1);
        assert(m.subrange(1, m.len() as int) =~= named_lines(name, rest));
        lemma_sub_part(ls, i, m, 1, named_lines(name, rest));
        assert forall|j: int| 0 <= j < rest.len() implies field_ok(#[trigger] rest[j]) by {
            assert(rest[j] == vs[j + 1]);
        }
        lemma_remove_steps(ls, i + 1, acc, blocks, pr1, rest);
        assert(pr1.shaping.remove_headers + rest =~= pr.shaping.remove_headers + vs);
        assert(with_removed(pr1, rest) == with_removed(pr, vs));
        assert forall|k: int| 0 <= k < m.len() implies line_ok(#[trigger] m[k]) by {
            if k > 0 {
                assert(m[k] == named_lines(name, rest)[k - 1]);
            }
        }
    }
}

/// A printed header pair line: what the parser reads as its value.
proof fn lemma_pair_line(name: Seq<char>, h: (Seq<char>, Seq<char>), line: nat) -> (w: Seq<char>)
    requires
        name_ok(name),
        pair_ok(h),
    ensures
        w.len() > 0,
        clean(pair_line(name, h)) == name + seq![' '] + w,
        header_value_pair(trim(w), line) == Some(Ok::<(Seq<char>, Seq<char>), ConfigErrorV>(h)),
        line_ok(pair_line(name, h)),
{
    reveal_strlit(" ");
    let e = Seq::<char>::empty();
    lemma_trim_of_trimmed(e);
    assert(no_char(h.0, '\n')) by {
        assert forall|k: int| 0 <= k < h.0.len() implies #[trigger] h.0[k] != '\n' by {
            assert(!is_ws(h.0[k]));
        }
    }
    if h.1.len() > 0 {
        let v = h.0 + " "@ + h.1;
        assert(v =~= h.0 + seq![' '] + h.1);
        assert(v[0] == h.0[0]);
        assert(v.last() == h.1.last());
        assert(plain(" "@));
        lemma_plain_cat(h.0, " "@);
        lemma_plain_cat(h.0 + " "@, h.1);
        lemma_clean_field(name, v);
        lemma_trim_of_trimmed(v);
        lemma_trim_of_trimmed(h.1);
        lemma_split_word(h.0, h.1);
        v
    } else {
        let w = h.0;
        assert(h.0 + " "@ + h.1 =~= w + " "@);
        assert(plain(w));
        lemma_clean_field_pad(name, w);
        lemma_trim_of_trimmed(w);
        lemma_split_word(w, e);
        assert(h.1 =~= e);
        w
    }
}

spec fn pair_name(set: bool) -> Seq<char> {
    if set {
        "set_header"@
    } else {
        "add_header"@
    }
}

spec fn with_pairs(pr: PartialRoute, set: bool, hs: Seq<(Seq<char>, Seq<char>)>) -> PartialRoute {
    if set {
        PartialRoute { shaping: ShapingView { set_headers: pr.shaping.set_headers + hs, ..pr.shaping }, ..pr }
    } else {
        PartialRoute { shaping: ShapingView { add_headers: pr.shaping.add_headers + hs, ..pr.shaping }, ..pr }
    }
}

proof fn lemma_pair_steps(
    ls: Seq<Seq<char>>,
    i: int,
    acc: ConfigView,
    blocks: nat,
    pr: PartialRoute,
    set: bool,
    hs: Seq<(Seq<char>, Seq<char>)>,
)
    requires
        forall|j: int| 0 <= j < hs.len() ==> pair_ok(#[trigger] hs[j]),
        0 <= i,
        i + hs.len() <= ls.len(),
        ls.subrange(i, i + hs.len()) == pair_lines(pair_name(set), hs),
    ensures
        parse_from(ls, i, acc, blocks, Some(pr)) == parse_from(
            ls,
            i + hs.len(),
            acc,
            blocks,
            Some(with_pairs(pr, set, hs)),
        ),
        forall|k: int|
            0 <= k < pair_lines(pair_name(set), hs).len() ==> line_ok(
                #[trigger] pair_lines(pair_name(set), hs)[k],
            ),
    decreases hs.len(),
{
    let name = pair_name(set);
    if hs.len() == 0 {
        assert(pr.shaping.set_headers + hs =~= pr.shaping.set_headers);
        assert(pr.shaping.add_headers + hs =~= pr.shaping.add_headers);
        assert(with_pairs(pr, set, hs) == pr);
    } else {
        lemma_names();
        lemma_reveal_fields();
        let m = pair_lines(name, hs);
        let h = hs[0];
        let rest = hs.drop_first();
        assert(ls.subrange(i, i + hs.len())[0] == ls[i]);
        assert(m[0] == pair_line(name, h));
        let w = lemma_pair_line(name, h, (i + 1) as nat);
        let pr1 = with_pairs(pr, set, seq![h]);
        assert(pr.shaping.set_headers + seq![h] =~= pr.shaping.set_headers.push(h));
        assert(pr.shaping.add_headers + seq![h] =~= pr.shaping.add_headers.push(h));
        assert(route_field(pr, name, trim(w), (i + 1) as nat) == Some(Ok::<PartialRoute, ConfigErrorV>(pr1)));
        lemma_field_step(ls, i, acc, blocks, pr, name, w, pr1);
        assert(m.subrange(1, m.len() as int) =~= pair_lines(name, rest));
        lemma_sub_part(ls, i, m, 1, pair_lines(name, rest));
        assert forall|j: int| 0 <= j < rest.len() implies pair_ok(#[trigger] rest[j]) by {
            assert(rest[j] == hs[j + 1]);
        }
        lemma_pair_steps(ls, i + 1, acc, blocks, pr1, set, rest);
        if set {
            assert(pr1.shaping.set_headers + rest =~= pr.shaping.set_headers + hs);
        } else {
            assert(pr1.shaping.add_headers + rest =~= pr.shaping.add_headers + hs);
        }
        assert(with_pairs(pr1, set, rest) == with_pairs(pr, set, hs));
        assert forall|k: int| 0 <= k < m.len() implies line_ok(#[trigger] m[k]) by {
            if k > 0 {
                assert(m[k] == pair_lines(name, rest)[k - 1]);
            }
        }
    }
}

/// A whole printed route block reads back as the route.
proof fn lemma_route_step(ls: Seq<Seq<char>>, i: int, acc: ConfigView, blocks: nat, r: RouteView)
    requires
        route_ok(r),
        0 <= i,
        i + route_lines(r).len() <= ls.len(),
        ls.subrange(i, i + route_lines(r).len()) == route_lines(r),
    ensures
        parse_from(ls, i, acc, blocks, None) == parse_from(
            ls,
            i + route_lines(r).len(),
            ConfigView { routes: acc.routes.push(r), ..acc },
            blocks + 1,
            None,
        ),
        forall|k: int| 0 <= k < route_lines(r).len() ==> line_ok(#[trigger] route_lines(r)[k]),
{
    let m = route_lines(r);
    let a = route_match_lines(r);
    let b = route_policy_lines(r);
    let rm = named_lines("remove_header"@, r.shaping.remove_headers);
    let st = pair_lines(pair_name(true), r.shaping.set_headers);
    let ad = pair_lines(pair_name(false), r.shaping.add_headers);
    let cl = seq!["}"@];
    assert(m =~= a + b + rm + st + ad + cl);
    let na: int = a.len() as int;
    let nb: int = b.len() as int;
    let nr: int = rm.len() as int;
    let ns: int = st.len() as int;
    let nd: int = ad.len() as int;
    let b1 = blocks + 1;
    // route {, method, host, path
    assert(m.subrange(0, na) =~= a);
    lemma_sub_part(ls, i, m, 0, a);
    lemma_route_match(ls, i, acc, blocks, r);
    // auth, rate, upstream, prefixes
    assert(m.subrange(na, na + nb) =~= b);
    lemma_sub_part(ls, i, m, na, b);
    lemma_route_policy(ls, i + na, acc, b1, r);
    // header rewrites
    let q0 = draft_policy(r);
    assert(m.subrange(na + nb, na + nb + nr) =~= rm);
    lemma_sub_part(ls, i, m, na + nb, rm);
    lemma_remove_steps(ls, i + na + nb, acc, b1, q0, r.shaping.remove_headers);
    let q1 = with_removed(q0, r.shaping.remove_headers);
    assert(m.subrange(na + nb + nr, na + nb + nr + ns) =~= st);
    lemma_sub_part(ls, i, m, na + nb + nr, st);
    lemma_pair_steps(ls, i + na + nb + nr, acc, b1, q1, true, r.shaping.set_headers);
    let q2 = with_pairs(q1, true, r.shaping.set_headers);
    assert(m.subrange(na + nb + nr + ns, na + nb + nr + ns + nd) =~= ad);
    lemma_sub_part(ls, i, m, na + nb + nr + ns, ad);
    lemma_pair_steps(ls, i + na + nb + nr + ns, acc, b1, q2, false, r.shaping.add_headers);
    let q3 = with_pairs(q2, false, r.shaping.add_headers);
    // the closing brace
    let ic = i + na + nb + nr + ns + nd;
    assert(m[na + nb + nr + ns + nd] == "}"@);
    assert(ls.subrange(i, i + m.len())[na + nb + nr + ns + nd] == ls[ic]);
    assert(Seq::<Seq<char>>::empty() + r.shaping.remove_headers =~= r.shaping.remove_headers);
    assert(Seq::<(Seq<char>, Seq<char>)>::empty() + r.shaping.set_headers =~= r.shaping.set_headers);
    assert(Seq::<(Seq<char>, Seq<char>)>::empty() + r.shaping.add_headers =~= r.shaping.add_headers);
    assert(q3.shaping == r.shaping);
    assert(close_route(q3, b1) == Ok::<RouteView, ConfigErrorV>(r));
    lemma_route_close(ls, ic, acc, b1, q3, r);
    assert forall|k: int| 0 <= k < m.len() implies line_ok(#[trigger] m[k]) by {
        if k < na {
            assert(m[k] == a[k]);
        } else if k < na + nb {
            assert(m[k] == b[k - na]);
        } else if k < na + nb + nr {
            assert(m[k] == rm[k - na - nb]);
        } else if k < na + nb + nr + ns {
            assert(m[k] == st[k - na - nb - nr]);
        } else if k < na + nb + nr + ns + nd {
            assert(m[k] == ad[k - na - nb - nr - ns]);
        } else {
            assert(m[k] == "}"@);
        }
    }
}

// ----- reading printed keys back -----------------------------------------------------------

proof fn lemma_split_join(ss: Seq<Seq<char>>, c: char)
    requires
        ss.len() >= 1,
        forall|i: int| 0 <= i < ss.len() ==> no_char(#[trigger] ss[i], c),
    ensures
        split_char(join_with(ss, c), c) == ss,
    decreases ss.len(),
{
    let e = Seq::<char>::empty();
    if ss.len() == 1 {
        assert(no_char(ss[0], c));
        lemma_split_extend(e, ss[0], c);
        assert(e + ss[0] =~= ss[0]);
        assert(split_char(e, c).update(0, e + ss[0]) =~= ss);
    } else {
        let p = ss.drop_last();
        assert forall|i: int| 0 <= i < p.len() implies no_char(#[trigger] p[i], c) by {
            assert(p[i] == ss[i]);
        }
        lemma_split_join(p, c);
        let x = join_with(p, c);
        let l = ss.last();
        assert(no_char(ss[ss.len() - 1], c));
        assert(x.push(c).drop_last() =~= x);
        assert(split_char(x.push(c), c) == p.push(e));
        lemma_split_extend(x.push(c), l, c);
        assert(e + l =~= l);
        assert(p.push(e).update(p.len() as int, e + l) =~= ss);
    }
}

proof fn lemma_join_plain(ss: Seq<Seq<char>>, c: char)
    requires
        c != '#' && c != '\n',
        forall|i: int| 0 <= i < ss.len() ==> plain(#[trigger] ss[i]),
    ensures
        plain(join_with(ss, c)),
    decreases ss.len(),
{
    if ss.len() == 1 {
        assert(plain(ss[0]));
    } else if ss.len() > 1 {
        let p = ss.drop_last();
        assert forall|i: int| 0 <= i < p.len() implies plain(#[trigger] p[i]) by {
            assert(p[i] == ss[i]);
        }
        lemma_join_plain(p, c);
        assert(plain(ss[ss.len() - 1]));
        assert(plain(seq![c]));
        assert(join_with(p, c).push(c) =~= join_with(p, c) + seq![c]);
        lemma_plain_cat(join_with(p, c), seq![c]);
        lemma_plain_cat(join_with(p, c).push(c), ss.last());
    }
}

proof fn lemma_join_last(ss: Seq<Seq<char>>, c: char)
    requires
        ss.len() > 0,
        ss.last().len() > 0,
    ensures
        join_with(ss, c).len() > 0,
        join_with(ss, c).last() == ss.last().last(),
{
}

proof fn lemma_scope_list_same(ss: Seq<Seq<char>>)
    requires
        forall|i: int| 0 <= i < ss.len() ==> scope_ok(#[trigger] ss[i]),
    ensures
        scope_list(ss) == ss,
    decreases ss.len(),
{
    if ss.len() > 0 {
        let p = ss.drop_last();
        assert forall|i: int| 0 <= i < p.len() implies scope_ok(#[trigger] p[i]) by {
            assert(p[i] == ss[i]);
        }
        lemma_scope_list_same(p);
        assert(scope_ok(ss[ss.len() - 1]));
        lemma_trim_of_trimmed(ss.last());
        assert(p.push(ss.last()) =~= ss);
    }
}

/// A printed key line reads back as the key.
proof fn lemma_key_step(ls: Seq<Seq<char>>, i: int, acc: ConfigView, blocks: nat, k: ApiKeyView)
    requires
        key_ok(k),
        0 <= i < ls.len(),
        ls[i] == key_text(k),
    ensures
        parse_from(ls, i, acc, blocks, None) == parse_from(
            ls,
            i + 1,
            ConfigView { keys: acc.keys.push(k), ..acc },
            blocks,
            None,
        ),
        line_ok(key_text(k)),
{
    reveal_strlit("key ");
    reveal_strlit(" scopes ");
    reveal_strlit("key");
    reveal_strlit("scopes");
    lemma_names();
    let e = Seq::<char>::empty();
    lemma_trim_of_trimmed(e);
    let l = key_text(k);
    let id = k.key;
    assert(plain(id)) by {
        assert forall|j: int| 0 <= j < id.len() implies #[trigger] id[j] != '\n' by {
            assert(!is_ws(id[j]));
        }
    }
    assert(plain("key "@));
    lemma_plain_cat("key "@, id);
    let rest = if k.scopes.len() == 0 {
        id
    } else {
        id + seq![' '] + ("scopes"@ + seq![' '] + join_with(k.scopes, ','))
    };
    assert(l =~= "key"@ + seq![' '] + rest);
    if k.scopes.len() == 0 {
        assert(l.last() == id.last());
        assert(k.scopes =~= Seq::<Seq<char>>::empty());
    } else {
        let j = join_with(k.scopes, ',');
        assert forall|x: int| 0 <= x < k.scopes.len() implies plain(#[trigger] k.scopes[x]) by {
            assert(scope_ok(k.scopes[x]));
        }
        lemma_join_plain(k.scopes, ',');
        assert(scope_ok(k.scopes[k.scopes.len() - 1]));
        lemma_join_last(k.scopes, ',');
        assert(plain(" scopes "@));
        lemma_plain_cat("key "@ + id, " scopes "@);
        lemma_plain_cat("key "@ + id + " scopes "@, j);
        assert(l.last() == j.last());
        let t0 = "scopes"@ + seq![' '] + j;
        assert(t0[0] == 's');
        assert(t0.last() == j.last());
        lemma_trim_of_trimmed(t0);
        lemma_split_word(id, t0);
        lemma_split_word("scopes"@, j);
        assert forall|x: int| 0 <= x < k.scopes.len() implies no_char(#[trigger] k.scopes[x], ',') by {
            assert(scope_ok(k.scopes[x]));
        }
        lemma_split_join(k.scopes, ',');
        lemma_scope_list_same(k.scopes);
    }
    lemma_clean_plain(l);
    lemma_trim_of_trimmed(l);
    lemma_split_word("key"@, rest);
    lemma_split_word(id, e);
    assert(key_line(rest, (i + 1) as nat) == Some(Ok::<ApiKeyView, ConfigErrorV>(k)));
}

proof fn lemma_keys_steps(ls: Seq<Seq<char>>, i: int, acc: ConfigView, blocks: nat, keys: Seq<ApiKeyView>)
    requires
        forall|j: int| 0 <= j < keys.len() ==> key_ok(#[trigger] keys[j]),
        0 <= i,
        i + keys.len() <= ls.len(),
        ls.subrange(i, i + keys.len()) == key_lines(keys),
    ensures
        parse_from(ls, i, acc, blocks, None) == parse_from(
            ls,
            i + keys.len(),
            ConfigView { keys: acc.keys + keys, ..acc },
            blocks,
            None,
        ),
        forall|k: int| 0 <= k < key_lines(keys).len() ==> line_ok(#[trigger] key_lines(keys)[k]),
    decreases keys.len(),
{
    if keys.len() == 0 {
        assert(acc.keys + keys =~= acc.keys);
    } else {
        let m = key_lines(keys);
        let k = keys[0];
        let rest = keys.drop_first();
        assert(ls.subrange(i, i + keys.len())[0] == ls[i]);
        assert(m[0] == key_text(k));
        lemma_key_step(ls, i, acc, blocks, k);
        let acc1 = ConfigView { keys: acc.keys.push(k), ..acc };
        assert(m.subrange(1, m.len() as int) =~= key_lines(rest));
        lemma_sub_part(ls, i, m, 1, key_lines(rest));
        assert forall|j: int| 0 <= j < rest.len() implies key_ok(#[trigger] rest[j]) by {
            assert(rest[j] == keys[j + 1]);
        }
        lemma_keys_steps(ls, i + 1, acc1, blocks, rest);
        assert(acc1.keys + rest =~= acc.keys + keys);
        assert forall|x: int| 0 <= x < m.len() implies line_ok(#[trigger] m[x]) by {
            if x > 0 {
                assert(m[x] == key_lines(rest)[x - 1]);
            }
        }
    }
}

proof fn lemma_routes_steps(ls: Seq<Seq<char>>, i: int, acc: ConfigView, blocks: nat, rs: Seq<RouteView>)
    requires
        forall|j: int| 0 <= j < rs.len() ==> route_ok(#[trigger] rs[j]),
        0 <= i,
        i + routes_lines(rs).len() <= ls.len(),
        ls.subrange(i, i + routes_lines(rs).len()) == routes_lines(rs),
    ensures
        parse_from(ls, i, acc, blocks, None) == parse_from(
            ls,
            i + routes_lines(rs).len(),
            ConfigView { routes: acc.routes + rs, ..acc },
            blocks + rs.len(),
            None,
        ),
        forall|k: int| 0 <= k < routes_lines(rs).len() ==> line_ok(#[trigger] routes_lines(rs)[k]),
    decreases rs.len(),
{
    if rs.len() == 0 {
        assert(acc.routes + rs =~= acc.routes);
    } else {
        let p = rs.drop_last();
        let r = rs.last();
        let m = routes_lines(rs);
        let a = routes_lines(p);
        let b = route_lines(r);
        let na: int = a.len() as int;
        let nb: int = b.len() as int;
        assert(m =~= a + b + seq![Seq::<char>::empty()]);
        assert forall|j: int| 0 <= j < p.len() implies route_ok(#[trigger] p[j]) by {
            assert(p[j] == rs[j]);
        }
        assert(route_ok(rs[rs.len() - 1]));
        assert(m.subrange(0, na) =~= a);
        lemma_sub_part(ls, i, m, 0, a);
        lemma_routes_steps(ls, i, acc, blocks, p);
        let acc1 = ConfigView { routes: acc.routes + p, ..acc };
        assert(m.subrange(na, na + nb) =~= b);
        lemma_sub_part(ls, i, m, na, b);
        lemma_route_step(ls, i + na, acc1, blocks + p.len(), r);
        assert(ls.subrange(i, i + m.len())[na + nb] == ls[i + na + nb]);
        assert(ls[i + na + nb] == m[na + nb]);
        lemma_blank_step(ls, i + na + nb, ConfigView { routes: acc1.routes.push(r), ..acc1 }, blocks + p.len() + 1, None);
        assert(acc1.routes.push(r) =~= acc.routes + rs);
        assert forall|k: int| 0 <= k < m.len() implies line_ok(#[trigger] m[k]) by {
            if k < na {
                assert(m[k] == a[k]);
            } else if k < na + nb {
                assert(m[k] == b[k - na]);
            } else {
                assert(m[k] == Seq::<char>::empty());
            }
        }
    }
}

/// Printing a printable config and parsing the text gives the config back.
proof fn lemma_print_parse(c: ConfigView)
    requires
        printable(c),
    ensures
        config_parse(config_text(c)) == Some(Ok::<ConfigView, ConfigErrorV>(c)),
{
    let ls = config_lines(c);
    let a = key_lines(c.keys);
    let blank = if c.keys.len() > 0 {
        seq![Seq::<char>::empty()]
    } else {
        Seq::<Seq<char>>::empty()
    };
    let b = routes_lines(c.routes);
    let na: int = a.len() as int;
    let nl: int = blank.len() as int;
    assert(ls =~= a + blank + b);
    assert(ls.subrange(0, ls.len() as int) =~= ls);
    let acc0 = empty_config();
    assert(ls.subrange(0, na) =~= a);
    lemma_sub_part(ls, 0, ls, 0, a);
    lemma_keys_steps(ls, 0, acc0, 0, c.keys);
    let acc1 = ConfigView { keys: acc0.keys + c.keys, ..acc0 };
    if c.keys.len() > 0 {
        assert(ls[na] == Seq::<char>::empty());
        lemma_blank_step(ls, na, acc1, 0, None);
    }
    assert(ls.subrange(na + nl, ls.len() as int) =~= b);
    lemma_sub_part(ls, 0, ls, na + nl, b);
    lemma_routes_steps(ls, na + nl, acc1, 0, c.routes);
    let acc2 = ConfigView { routes: acc1.routes + c.routes, ..acc1 };
    assert(acc2.keys =~= c.keys);
    assert(acc2.routes =~= c.routes);
    assert(acc2 == c);
    assert forall|k: int| 0 <= k < ls.len() implies line_ok(#[trigger] ls[k]) by {
        if k < na {
            assert(ls[k] == a[k]);
        } else if k < na + nl {
            assert(ls[k] == Seq::<char>::empty());
        } else {
            assert(ls[k] == b[k - na - nl]);
        }
    }
    lemma_lines_of_line_text(ls);
}

// ----- the law ---------------------------------------------------------------------------

/// The printer and the parser round-trip: a config read from any text prints to
/// a text that reads back as the same config.
pub proof fn law_config_round_trip(text: Seq<char>, c: ConfigView)
    requires
        config_parse(text) == Some(Ok::<ConfigView, ConfigErrorV>(c)),
    ensures
        config_parse(config_text(c)) == Some(Ok::<ConfigView, ConfigErrorV>(c)),
{
    lemma_parsed_printable(text);
    lemma_print_parse(c);
}

} // verus!
