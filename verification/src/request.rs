use vstd::prelude::*;

use crate::text::{
    chars_of, find_char, find_char_in, first_where, lemma_first_where, lemma_first_where_is, lemma_first_where_push,
    lemma_lower_idempotent, lower_chars, lower_seq,
    slice_of, string_of, trim, trim_chars, upper_chars, upper_seq,
};

verus! {

/// A header list as the contracts see it: (name, value) pairs in order.
pub type Headers = Seq<(Seq<char>, Seq<char>)>;

/// An inbound request reduced to exactly what the policy pipeline needs.
///
/// Header names are stored lowercased so lookups are case-insensitive, which is
/// what HTTP requires. The `host` is the authority with any port stripped, and
/// `path` never contains the query string (routing matches on the path only).
#[derive(Debug, Clone, PartialEq, Eq)]
pub struct Request {
    pub method: String,
    pub host: String,
    pub path: String,
    pub query: Option<String>,
    pub headers: Vec<(String, String)>,
    pub body: Vec<u8>,
    pub client_ip: String,
}

pub struct RequestView {
    pub method: Seq<char>,
    pub host: Seq<char>,
    pub path: Seq<char>,
    pub query: Option<Seq<char>>,
    pub headers: Headers,
    pub body: Seq<u8>,
    pub client_ip: Seq<char>,
}

pub open spec fn opt_view(o: Option<String>) -> Option<Seq<char>> {
    match o {
        Some(s) => Some(s@),
        None => None,
    }
}

pub open spec fn pairs_view(v: Seq<(String, String)>) -> Headers {
    v.map_values(|h: (String, String)| (h.0@, h.1@))
}

impl View for Request {
    type V = RequestView;

    open spec fn view(&self) -> RequestView {
        RequestView {
            method: self.method@,
            host: self.host@,
            path: self.path@,
            query: opt_view(self.query),
            headers: pairs_view(self.headers@),
            body: self.body@,
            client_ip: self.client_ip@,
        }
    }
}

// ----- specification -------------------------------------------------------

pub open spec fn name_is(n: Seq<char>) -> spec_fn((Seq<char>, Seq<char>)) -> bool {
    |h: (Seq<char>, Seq<char>)| h.0 == n
}

/// Position of the first header whose stored name is exactly `n`, or the length.
pub open spec fn header_index(hs: Headers, n: Seq<char>) -> int {
    first_where(hs, name_is(n))
}

/// The value of the first header named `name`, compared case-insensitively.
pub open spec fn header_value(hs: Headers, name: Seq<char>) -> Option<Seq<char>> {
    let i = header_index(hs, lower_seq(name));
    if i < hs.len() {
        Some(hs[i].1)
    } else {
        None
    }
}

/// Replace the value of the first header named `name` (lowercased), or append it.
pub open spec fn headers_set(hs: Headers, name: Seq<char>, value: Seq<char>) -> Headers {
    let n = lower_seq(name);
    let i = header_index(hs, n);
    if i < hs.len() {
        hs.update(i, (n, value))
    } else {
        hs.push((n, value))
    }
}

/// The headers whose stored name is not `n`, in their order.
pub open spec fn headers_without(hs: Headers, n: Seq<char>) -> Headers
    decreases hs.len(),
{
    if hs.len() == 0 {
        hs
    } else {
        let rest = headers_without(hs.drop_last(), n);
        if hs.last().0 == n {
            rest
        } else {
            rest.push(hs.last())
        }
    }
}

/// `normalize_host`: the authority trimmed and ASCII-lowercased, with any port
/// stripped. A bracketed IPv6 literal (`[` first, with a closing `]`) keeps
/// everything up to and including its `]`; any other host is cut at its first `:`.
pub open spec fn host_normal(h: Seq<char>) -> Seq<char> {
    let t = lower_seq(trim(h));
    let j = find_char(t, ']');
    let i = find_char(t, ':');
    if t.len() > 0 && t[0] == '[' && j < t.len() {
        t.take(j + 1)
    } else if i < t.len() {
        t.take(i)
    } else {
        t
    }
}

/// The path part of a request target: everything before the first `?`.
pub open spec fn target_path(t: Seq<char>) -> Seq<char> {
    let i = find_char(t, '?');
    if i < t.len() {
        t.take(i)
    } else {
        t
    }
}

/// The query part of a request target: everything after the first `?`, if any.
pub open spec fn target_query(t: Seq<char>) -> Option<Seq<char>> {
    let i = find_char(t, '?');
    if i < t.len() {
        Some(t.skip(i + 1))
    } else {
        None
    }
}

// ----- implementation ------------------------------------------------------

pub fn normalize_host(host: &str) -> (r: String)
    ensures
        r@ == host_normal(host@),
{
    let t = lower_chars(&trim_chars(&chars_of(host)));
    let j = find_char_in(&t, ']');
    let i = find_char_in(&t, ':');
    if t.len() > 0 && t[0] == '[' && j < t.len() {
        string_of(&slice_of(&t, 0, j + 1))
    } else if i < t.len() {
        string_of(&slice_of(&t, 0, i))
    } else {
        string_of(&t)
    }
}

fn split_query(target: &str) -> (r: (String, Option<String>))
    ensures
        r.0@ == target_path(target@),
        opt_view(r.1) == target_query(target@),
{
    let t = chars_of(target);
    let i = find_char_in(&t, '?');
    if i < t.len() {
        (string_of(&slice_of(&t, 0, i)), Some(string_of(&slice_of(&t, i + 1, t.len()))))
    } else {
        (string_of(&t), None)
    }
}

impl Request {
    /// Convenience builder used by tests and the `check` CLI. Header names are
    /// lowercased and the host is normalized the same way the wire parser does.
    pub fn new(method: &str, host: &str, path: &str) -> (r: Request)
        ensures
            r@.method == upper_seq(method@),
            r@.host == host_normal(host@),
            r@.path == target_path(path@),
            r@.query == target_query(path@),
            r@.headers == Seq::<(Seq<char>, Seq<char>)>::empty(),
            r@.body == Seq::<u8>::empty(),
            r@.client_ip == "0.0.0.0"@,
    {
        let (path_only, query) = split_query(path);
        let r = Request {
            method: string_of(&upper_chars(&chars_of(method))),
            host: normalize_host(host),
            path: path_only,
            query,
            headers: Vec::new(),
            body: Vec::new(),
            client_ip: String::from_str("0.0.0.0"),
        };
        assert(r@.headers =~= Seq::<(Seq<char>, Seq<char>)>::empty());
        r
    }

    /// A copy of this request with the same fields.
    pub(crate) fn copy_of(&self) -> (r: Request)
        ensures
            r@ == self@,
    {
        let mut headers: Vec<(String, String)> = Vec::new();
        let mut i: usize = 0;
        while i < self.headers.len()
            invariant
                i <= self.headers@.len(),
                pairs_view(headers@) == pairs_view(self.headers@).take(i as int),
            decreases self.headers.len() - i,
        {
            let h = (self.headers[i].0.clone(), self.headers[i].1.clone());
            let ghost prev = headers@;
            headers.push(h);
            proof {
                assert(headers@ == prev.push(h));
                assert(pairs_view(headers@) =~= pairs_view(prev).push((h.0@, h.1@)));
                assert(pairs_view(self.headers@)[i as int] == (h.0@, h.1@));
            }
            i = i + 1;
            assert(pairs_view(headers@) =~= pairs_view(self.headers@).take(i as int));
        }
        assert(pairs_view(self.headers@).take(self.headers@.len() as int) =~= pairs_view(self.headers@));
        let mut body: Vec<u8> = Vec::new();
        let mut j: usize = 0;
        while j < self.body.len()
            invariant
                j <= self.body@.len(),
                body@ == self.body@.take(j as int),
            decreases self.body.len() - j,
        {
            body.push(self.body[j]);
            j = j + 1;
            assert(body@ =~= self.body@.take(j as int));
        }
        assert(self.body@.take(self.body@.len() as int) =~= self.body@);
        let query = match &self.query {
            Some(q) => Some(q.clone()),
            None => None,
        };
        Request {
            method: self.method.clone(),
            host: self.host.clone(),
            path: self.path.clone(),
            query,
            headers,
            body,
            client_ip: self.client_ip.clone(),
        }
    }

    pub fn with_header(self, name: &str, value: &str) -> (r: Request)
        ensures
            r@ == (RequestView { headers: headers_set(self@.headers, name@, value@), ..self@ }),
    {
        let mut r = self;
        r.set_header(name, value);
        r
    }

    pub fn with_client_ip(self, ip: &str) -> (r: Request)
        ensures
            r@ == (RequestView { client_ip: ip@, ..self@ }),
    {
        let mut r = self;
        r.client_ip = String::from_str(ip);
        r
    }

    /// Position of the first header whose stored name equals `n`.
    fn find_header(&self, n: &String) -> (i: usize)
        ensures
            i == header_index(self@.headers, n@),
            i <= self.headers@.len(),
    {
        let ghost hs = self@.headers;
        let mut i: usize = 0;
        while i < self.headers.len()
            invariant
                hs == self@.headers,
                i <= self.headers@.len(),
                forall|j: int| 0 <= j < i ==> !name_is(n@)(#[trigger] hs[j]),
            decreases self.headers.len() - i,
        {
            if self.headers[i].0 == *n {
                proof {
                    lemma_first_where_is(hs, name_is(n@), i as int);
                }
                return i;
            }
            i = i + 1;
        }
        proof {
            lemma_first_where_is(hs, name_is(n@), i as int);
        }
        i
    }

    pub fn header(&self, name: &str) -> (r: Option<&str>)
        ensures
            match r {
                Some(v) => header_value(self@.headers, name@) == Some(v@),
                None => header_value(self@.headers, name@) is None,
            },
    {
        let n = string_of(&lower_chars(&chars_of(name)));
        let i = self.find_header(&n);
        if i < self.headers.len() {
            Some(self.headers[i].1.as_str())
        } else {
            None
        }
    }

    pub fn set_header(&mut self, name: &str, value: &str)
        ensures
            final(self)@ == (RequestView {
                headers: headers_set(old(self)@.headers, name@, value@),
                ..old(self)@
            }),
    {
        let n = string_of(&lower_chars(&chars_of(name)));
        let i = self.find_header(&n);
        let ghost hs = old(self)@.headers;
        if i < self.headers.len() {
            self.headers.set(i, (n, String::from_str(value)));
        } else {
            self.headers.push((n, String::from_str(value)));
        }
        assert(self@.headers =~= headers_set(hs, name@, value@));
    }

    pub fn remove_header(&mut self, name: &str)
        ensures
            final(self)@ == (RequestView {
                headers: headers_without(old(self)@.headers, lower_seq(name@)),
                ..old(self)@
            }),
    {
        let n = string_of(&lower_chars(&chars_of(name)));
        let ghost hs = old(self)@.headers;
        let mut kept: Vec<(String, String)> = Vec::new();
        let mut i: usize = 0;
        while i < self.headers.len()
            invariant
                hs == self@.headers,
                i <= self.headers@.len(),
                pairs_view(kept@) == headers_without(hs.take(i as int), n@),
            decreases self.headers.len() - i,
        {
            proof {
                assert(hs.take(i + 1).drop_last() =~= hs.take(i as int));
            }
            if self.headers[i].0 != n {
                let h = (self.headers[i].0.clone(), self.headers[i].1.clone());
                kept.push(h);
                assert(pairs_view(kept@) =~= headers_without(hs.take(i + 1), n@));
            }
            i = i + 1;
        }
        assert(hs.take(self.headers@.len() as int) =~= hs);
        self.headers = kept;
    }
}


// ----- laws ------------------------------------------------------------------

/// A header that was just set reads back with the value it was set to, under any
/// capitalisation of its name.
pub proof fn law_header_read_after_set(hs: Headers, name: Seq<char>, value: Seq<char>, asked: Seq<char>)
    requires
        lower_seq(asked) == lower_seq(name),
    ensures
        header_value(headers_set(hs, name, value), asked) == Some(value),
{
    let n = lower_seq(name);
    lemma_lower_idempotent(name);
    let i = header_index(hs, n);
    lemma_first_where(hs, name_is(n));
    let out = headers_set(hs, name, value);
    if i < hs.len() {
        assert forall|j: int| 0 <= j < i implies !name_is(n)(#[trigger] out[j]) by {
            assert(out[j] == hs[j]);
        }
        lemma_first_where_is(out, name_is(n), i);
    } else {
        assert forall|j: int| 0 <= j < hs.len() implies !name_is(n)(#[trigger] out[j]) by {
            assert(out[j] == hs[j]);
        }
        lemma_first_where_is(out, name_is(n), hs.len() as int);
    }
}

/// Setting one header leaves the lookup of every differently named header unchanged.
pub proof fn law_header_set_keeps_others(hs: Headers, name: Seq<char>, value: Seq<char>, other: Seq<char>)
    requires
        lower_seq(other) != lower_seq(name),
    ensures
        header_value(headers_set(hs, name, value), other) == header_value(hs, other),
{
    let n = lower_seq(name);
    let m = lower_seq(other);
    let out = headers_set(hs, name, value);
    let i = header_index(hs, n);
    lemma_first_where(hs, name_is(n));
    let k = header_index(hs, m);
    lemma_first_where(hs, name_is(m));
    if i < hs.len() {
        assert forall|j: int| 0 <= j < k implies !name_is(m)(#[trigger] out[j]) by {
            if j != i {
                assert(out[j] == hs[j]);
            }
        }
        if k < hs.len() {
            assert(k != i);
            assert(out[k] == hs[k]);
        }
        lemma_first_where_is(out, name_is(m), k);
    } else {
        assert(out == hs.push((n, value)));
        lemma_first_where_push(hs, name_is(m), (n, value));
        assert(!name_is(m)((n, value)));
        if k < hs.len() {
            assert(out[k] == hs[k]);
        }
    }
}

proof fn lemma_without(hs: Headers, n: Seq<char>, m: Seq<char>)
    ensures
        m == n ==> header_index(headers_without(hs, n), m) == headers_without(hs, n).len(),
        m != n ==> (header_index(hs, m) < hs.len()) == (header_index(headers_without(hs, n), m)
            < headers_without(hs, n).len()),
        m != n && header_index(hs, m) < hs.len() ==> headers_without(hs, n)[header_index(
            headers_without(hs, n),
            m,
        )] == hs[header_index(hs, m)],
    decreases hs.len(),
{
    if hs.len() > 0 {
        let s = hs.drop_last();
        let x = hs.last();
        lemma_without(s, n, m);
        let w = headers_without(s, n);
        assert(hs == s.push(x));
        lemma_first_where_push(s, name_is(m), x);
        lemma_first_where(s, name_is(m));
        lemma_first_where(w, name_is(m));
        if x.0 == n {
            assert(headers_without(hs, n) == w);
            if m != n && header_index(s, m) < s.len() {
                assert(hs[header_index(hs, m)] == s[header_index(s, m)]);
            }
        } else {
            assert(headers_without(hs, n) == w.push(x));
            lemma_first_where_push(w, name_is(m), x);
            if m != n {
                if header_index(s, m) < s.len() {
                    assert(hs[header_index(hs, m)] == s[header_index(s, m)]);
                    assert(w.push(x)[header_index(w, m)] == w[header_index(w, m)]);
                } else if x.0 == m {
                    assert(w.push(x)[w.len() as int] == x);
                    assert(hs[s.len() as int] == x);
                }
            }
        }
    }
}

/// A removed header is gone under any capitalisation, and every other header
/// still reads as before.
pub proof fn law_header_remove(hs: Headers, name: Seq<char>, asked: Seq<char>)
    ensures
        lower_seq(asked) == lower_seq(name) ==> header_value(
            headers_without(hs, lower_seq(name)),
            asked,
        ) is None,
        lower_seq(asked) != lower_seq(name) ==> header_value(
            headers_without(hs, lower_seq(name)),
            asked,
        ) == header_value(hs, asked),
{
    lemma_without(hs, lower_seq(name), lower_seq(asked));
}

} // verus!
