//! The wire-format logic of the gateway: reading a request head from the bytes a
//! client sent, and writing the rejection responses and the upstream request
//! head. Sockets, threads and the clock stay outside; they hand bytes in here.

use vstd::prelude::*;

use crate::error::{request_error_text, RequestError};
use crate::fixed::{all_digits, digits_value, is_digit, lemma_digits_prefix_mono};
use crate::request::{
    header_index, host_normal, normalize_host, pairs_view, target_path, target_query, Headers,
    Request, RequestView,
};
use crate::route::utf8_len;
use crate::text::{
    chars_eq, chars_of, concat, decimal, decimal_chars, find_char, find_char_in, first_where, lemma_first_where,
    lemma_first_where_is, lemma_lower_idempotent, lemma_trim, lower, lower_chars, lower_seq, slice_of, starts_with, starts_with_chars,
    string_of, trim, trim_chars, trimmed, upper_chars, upper_seq, views, words, words_of,
};

verus! {

/// Bytes a request head may take, request line and headers together.
pub const MAX_HEAD_BYTES: usize = 65536;

/// Header lines a request head may carry.
pub const MAX_HEADERS: usize = 100;

/// The largest body a request may announce in `Content-Length`.
pub const MAX_BODY_BYTES: usize = 8388608;

// ----- reading lines ------------------------------------------------------------------

pub open spec fn is_byte(b: u8) -> spec_fn(u8) -> bool {
    |x: u8| x == b
}

/// The bytes with every carriage return removed.
pub open spec fn drop_cr(s: Seq<u8>) -> Seq<u8>
    decreases s.len(),
{
    if s.len() == 0 {
        s
    } else if s.last() == 13u8 {
        drop_cr(s.drop_last())
    } else {
        drop_cr(s.drop_last()).push(s.last())
    }
}

/// One line read from position `pos`: the bytes up to the next `\n` with carriage
/// returns dropped, and the position after it. At the end of the input (`eof`)
/// the rest is the line. Reading past byte `MAX_HEAD_BYTES` fails; without a `\n`
/// and before the end, more input is needed.
pub enum LineRead {
    Incomplete,
    TooLarge,
    Line(Seq<u8>, int),
}

pub open spec fn read_line_at(data: Seq<u8>, pos: int, eof: bool) -> LineRead {
    let rest = data.skip(pos);
    let nl = first_where(rest, is_byte(10u8));
    let stop = if nl < rest.len() {
        pos + nl + 1
    } else {
        data.len() as int
    };
    if stop > MAX_HEAD_BYTES {
        LineRead::TooLarge
    } else if nl < rest.len() {
        LineRead::Line(drop_cr(rest.take(nl)), stop)
    } else if eof {
        LineRead::Line(drop_cr(rest), data.len() as int)
    } else {
        LineRead::Incomplete
    }
}

/// A line's text: the bytes decoded as UTF-8, or `None` when they are not UTF-8.
pub open spec fn line_text(b: Seq<u8>) -> Option<Seq<char>> {
    if vstd::utf8::valid_utf8(b) {
        Some(vstd::utf8::decode_utf8(b))
    } else {
        None
    }
}

/// `usize::from_str`: an optional `+`, then at least one digit, the value fitting a `usize`.
pub open spec fn parse_usize(s: Seq<char>) -> Option<nat> {
    let digits = if s.len() > 0 && s[0] == '+' {
        s.drop_first()
    } else {
        s
    };
    if digits.len() == 0 || !all_digits(digits) || digits_value(digits) > usize::MAX {
        None
    } else {
        Some(digits_value(digits))
    }
}

pub enum HeadOutcome {
    /// More bytes are needed before the head can be judged.
    Incomplete,
    Failed(RequestError),
    /// The request (without its body), the announced body length, and the number
    /// of bytes the head took.
    Complete(RequestView, nat, int),
}

pub proof fn lemma_drop_cr_empty(s: Seq<u8>)
    ensures
        drop_cr(s).len() <= s.len(),
    decreases s.len(),
{
    if s.len() > 0 {
        lemma_drop_cr_empty(s.drop_last());
    }
}

pub proof fn lemma_read_line_advances(data: Seq<u8>, pos: int, eof: bool)
    requires
        0 <= pos <= data.len(),
    ensures
        read_line_at(data, pos, eof) matches LineRead::Line(b, p) ==> pos <= p <= data.len() && (
        p == pos ==> b.len() == 0),
{
    let rest = data.skip(pos);
    lemma_first_where(rest, is_byte(10u8));
    lemma_drop_cr_empty(rest);
    lemma_drop_cr_empty(rest.take(first_where(rest, is_byte(10u8))));
}

/// The header lines from position `pos` on, added to `hs`, up to the blank line
/// that ends the head.
pub open spec fn headers_from(data: Seq<u8>, pos: int, eof: bool, hs: Headers) -> Result<(Headers, int), Option<RequestError>>
    decreases data.len() - pos,
{
    if pos < 0 || pos > data.len() {
        Err(Some(RequestError::BadHeader))
    } else {
        match read_line_at(data, pos, eof) {
            LineRead::Incomplete => Err(None),
            LineRead::TooLarge => Err(Some(RequestError::TooLarge)),
            LineRead::Line(b, p) => match line_text(b) {
                None => Err(Some(RequestError::BadHeader)),
                Some(line) => if line.len() == 0 {
                    Ok((hs, p))
                } else if hs.len() >= MAX_HEADERS {
                    Err(Some(RequestError::TooLarge))
                } else {
                    let i = find_char(line, ':');
                    let name = trim(line.take(i));
                    if i >= line.len() || name.len() == 0 {
                        Err(Some(RequestError::BadHeader))
                    } else {
                        proof {
                            lemma_read_line_advances(data, pos, eof);
                            if b.len() == 0 {
                                assert(vstd::utf8::decode_utf8(b) =~= Seq::<char>::empty());
                            }
                        }
                        headers_from(data, p, eof, hs.push((lower_seq(name), trim(line.skip(i + 1)))))
                    }
                },
            },
        }
    }
}

/// The value of the first header stored under exactly `n`.
pub open spec fn stored_value(hs: Headers, n: Seq<char>) -> Option<Seq<char>> {
    let i = header_index(hs, n);
    if i < hs.len() {
        Some(hs[i].1)
    } else {
        None
    }
}

/// Reading a request head from the bytes a client sent so far (`eof` when the
/// client will send no more): the request line, then header lines up to a blank
/// line, with hard bounds on bytes, header count and announced body size.
pub open spec fn read_head(data: Seq<u8>, eof: bool, peer: Seq<char>) -> HeadOutcome {
    match read_line_at(data, 0, eof) {
        LineRead::Incomplete => HeadOutcome::Incomplete,
        LineRead::TooLarge => HeadOutcome::Failed(RequestError::TooLarge),
        LineRead::Line(b, p) => match line_text(b) {
            None => HeadOutcome::Failed(RequestError::BadHeader),
            Some(line) => {
                let ws = words(line);
                if line.len() == 0 {
                    HeadOutcome::Failed(RequestError::Empty)
                } else if ws.len() != 3 {
                    HeadOutcome::Failed(RequestError::BadRequestLine)
                } else if !starts_with(ws[2], "HTTP/1."@) {
                    HeadOutcome::Failed(RequestError::UnsupportedVersion)
                } else if !starts_with(ws[1], "/"@) {
                    HeadOutcome::Failed(RequestError::BadRequestLine)
                } else {
                    match headers_from(data, p, eof, Seq::empty()) {
                        Err(None) => HeadOutcome::Incomplete,
                        Err(Some(e)) => HeadOutcome::Failed(e),
                        Ok((hs, end)) => {
                            let host = match stored_value(hs, "host"@) {
                                Some(v) => host_normal(v),
                                None => Seq::empty(),
                            };
                            let length = match stored_value(hs, "content-length"@) {
                                Some(v) => match parse_usize(v) {
                                    Some(n) => n,
                                    None => 0,
                                },
                                None => 0,
                            };
                            if length > MAX_BODY_BYTES {
                                HeadOutcome::Failed(RequestError::TooLarge)
                            } else {
                                HeadOutcome::Complete(
                                    RequestView {
                                        method: upper_seq(ws[0]),
                                        host,
                                        path: target_path(ws[1]),
                                        query: target_query(ws[1]),
                                        headers: hs,
                                        body: Seq::empty(),
                                        client_ip: peer,
                                    },
                                    length,
                                    end,
                                )
                            }
                        },
                    }
                }
            },
        },
    }
}


// ----- reading a head: implementation ----------------------------------------------------

/// Decodes bytes as UTF-8 text by calling `String::from_utf8`. Trusted, not
/// proved: it succeeds exactly on valid UTF-8, and then gives the decoded characters.
#[verifier::external_body]
fn utf8_text(bytes: Vec<u8>) -> (r: Option<String>)
    ensures
        r is Some <==> vstd::utf8::valid_utf8(bytes@),
        r matches Some(s) ==> s@ == vstd::utf8::decode_utf8(bytes@),
{
    String::from_utf8(bytes).ok()
}

enum LineResult {
    Incomplete,
    TooLarge,
    Line(Vec<u8>, usize),
}

fn drop_cr_bytes(s: &[u8], from: usize, to: usize) -> (r: Vec<u8>)
    requires
        from <= to <= s@.len(),
    ensures
        r@ == drop_cr(s@.subrange(from as int, to as int)),
{
    let mut r: Vec<u8> = Vec::new();
    let mut i: usize = from;
    while i < to
        invariant
            from <= i <= to <= s@.len(),
            r@ == drop_cr(s@.subrange(from as int, i as int)),
        decreases to - i,
    {
        assert(s@.subrange(from as int, i + 1).drop_last() =~= s@.subrange(from as int, i as int));
        assert(s@.subrange(from as int, i + 1).last() == s@[i as int]);
        if s[i] != 13u8 {
            r.push(s[i]);
        }
        i = i + 1;
    }
    r
}

fn read_line_exec(data: &[u8], pos: usize, eof: bool) -> (r: LineResult)
    requires
        pos <= data@.len(),
    ensures
        match r {
            LineResult::Incomplete => read_line_at(data@, pos as int, eof) is Incomplete,
            LineResult::TooLarge => read_line_at(data@, pos as int, eof) is TooLarge,
            LineResult::Line(b, p) => read_line_at(data@, pos as int, eof) == LineRead::Line(b@, p as int),
        },
{
    let ghost rest = data@.skip(pos as int);
    let mut j: usize = pos;
    while j < data.len() && data[j] != 10u8
        invariant
            pos <= j <= data@.len(),
            rest == data@.skip(pos as int),
            forall|k: int| 0 <= k < j - pos ==> !is_byte(10u8)(#[trigger] rest[k]),
        decreases data.len() - j,
    {
        assert(rest[j - pos] == data@[j as int]);
        j = j + 1;
    }
    proof {
        if j < data@.len() {
            assert(rest[j - pos] == data@[j as int]);
        }
        lemma_first_where_is(rest, is_byte(10u8), j - pos);
    }
    if j < data.len() {
        if j + 1 > MAX_HEAD_BYTES {
            return LineResult::TooLarge;
        }
        let b = drop_cr_bytes(data, pos, j);
        assert(data@.subrange(pos as int, j as int) =~= rest.take(j - pos));
        LineResult::Line(b, j + 1)
    } else if data.len() > MAX_HEAD_BYTES {
        LineResult::TooLarge
    } else if eof {
        let b = drop_cr_bytes(data, pos, data.len());
        assert(data@.subrange(pos as int, data@.len() as int) =~= rest);
        LineResult::Line(b, data.len())
    } else {
        LineResult::Incomplete
    }
}

fn stored_index(hs: &Vec<(String, String)>, n: &str) -> (i: usize)
    ensures
        i == header_index(pairs_view(hs@), n@),
        i <= hs@.len(),
{
    let ghost hv = pairs_view(hs@);
    let name = String::from_str(n);
    let mut i: usize = 0;
    while i < hs.len() && !(hs[i].0 == name)
        invariant
            hv == pairs_view(hs@),
            name@ == n@,
            i <= hs@.len(),
            forall|j: int| 0 <= j < i ==> !crate::request::name_is(n@)(#[trigger] hv[j]),
        decreases hs.len() - i,
    {
        assert(hv[i as int] == (hs@[i as int].0@, hs@[i as int].1@));
        i = i + 1;
    }
    proof {
        if i < hs@.len() {
            assert(hv[i as int] == (hs@[i as int].0@, hs@[i as int].1@));
        }
        lemma_first_where_is(hv, crate::request::name_is(n@), i as int);
    }
    i
}

fn parse_usize_chars(s: &Vec<char>) -> (r: Option<usize>)
    ensures
        match r {
            Some(n) => parse_usize(s@) == Some(n as nat),
            None => parse_usize(s@) is None,
        },
{
    let digits = if s.len() > 0 && s[0] == '+' {
        slice_of(s, 1, s.len())
    } else {
        slice_of(s, 0, s.len())
    };
    assert(digits@ =~= if s@.len() > 0 && s@[0] == '+' {
        s@.drop_first()
    } else {
        s@
    });
    if digits.len() == 0 {
        return None;
    }
    let mut v: u128 = 0;
    let mut i: usize = 0;
    while i < digits.len()
        invariant
            digits@ == if s@.len() > 0 && s@[0] == '+' {
                s@.drop_first()
            } else {
                s@
            },
            digits@.len() > 0,
            i <= digits@.len(),
            forall|k: int| 0 <= k < i ==> is_digit(#[trigger] digits@[k]),
            v == digits_value(digits@.take(i as int)),
            v <= usize::MAX,
        decreases digits.len() - i,
    {
        let c = digits[i];
        if !('0' <= c && c <= '9') {
            assert(!is_digit(digits@[i as int]));
            assert(!all_digits(digits@));
            return None;
        }
        assert(digits@.take(i + 1).drop_last() =~= digits@.take(i as int));
        assert(digits@.take(i + 1).last() == c);
        let d: u32 = c as u32 - 48;
        assert(digits_value(digits@.take(i + 1)) == digits_value(digits@.take(i as int)) * 10 + d);
        v = v * 10 + d as u128;
        i = i + 1;
        if v > usize::MAX as u128 {
            proof {
                if all_digits(digits@) {
                    lemma_digits_prefix_mono(digits@, i as int, digits@.len() as int);
                    assert(digits@.take(digits@.len() as int) =~= digits@);
                }
            }
            return None;
        }
    }
    assert(digits@.take(digits@.len() as int) =~= digits@);
    Some(v as usize)
}

/// What reading a head concludes.
pub enum HeadResult {
    /// More bytes are needed before the head can be judged.
    Incomplete,
    Failed(RequestError),
    /// The request without its body, the body length it announces, and the
    /// number of bytes the head took.
    Complete { request: Request, content_length: usize, head_len: usize },
}

pub open spec fn head_result_matches(r: HeadResult, o: HeadOutcome) -> bool {
    match r {
        HeadResult::Incomplete => o is Incomplete,
        HeadResult::Failed(e) => o == HeadOutcome::Failed(e),
        HeadResult::Complete { request, content_length, head_len } => o == HeadOutcome::Complete(
            request@,
            content_length as nat,
            head_len as int,
        ),
    }
}

/// Read a request head from the bytes `data` a client has sent so far; `eof`
/// says the client will send no more. See `read_head`.
#[verifier::loop_isolation(false)]
pub fn parse_head(data: &[u8], eof: bool, peer_ip: &str) -> (r: HeadResult)
    ensures
        head_result_matches(r, read_head(data@, eof, peer_ip@)),
{
    let (b, p) = match read_line_exec(data, 0, eof) {
        LineResult::Incomplete => return HeadResult::Incomplete,
        LineResult::TooLarge => return HeadResult::Failed(RequestError::TooLarge),
        LineResult::Line(b, p) => (b, p),
    };
    let line = match utf8_text(b) {
        None => return HeadResult::Failed(RequestError::BadHeader),
        Some(t) => chars_of(t.as_str()),
    };
    let ws = words_of(&line);
    let ghost wv = views(ws@);
    if line.len() == 0 {
        return HeadResult::Failed(RequestError::Empty);
    }
    if ws.len() != 3 {
        return HeadResult::Failed(RequestError::BadRequestLine);
    }
    assert(ws@[0]@ == wv[0] && ws@[1]@ == wv[1] && ws@[2]@ == wv[2]);
    if !starts_with_chars(&ws[2], &chars_of("HTTP/1.")) {
        return HeadResult::Failed(RequestError::UnsupportedVersion);
    }
    if !starts_with_chars(&ws[1], &chars_of("/")) {
        return HeadResult::Failed(RequestError::BadRequestLine);
    }
    let mut headers: Vec<(String, String)> = Vec::new();
    let mut pos: usize = p;
    let ghost start = p as int;
    proof {
        lemma_read_line_advances(data@, 0, eof);
        assert(pairs_view(headers@) =~= Seq::<(Seq<char>, Seq<char>)>::empty());
    }
    let mut end: usize = 0;
    loop
        invariant
            pos <= data@.len(),
            0 <= start <= data@.len(),
            headers@.len() <= MAX_HEADERS,
            headers_from(data@, pos as int, eof, pairs_view(headers@)) == headers_from(
                data@,
                start,
                eof,
                Seq::empty(),
            ),
        decreases data@.len() - pos,
    {
        let ghost hv = pairs_view(headers@);
        let (lb, lp) = match read_line_exec(data, pos, eof) {
            LineResult::Incomplete => return HeadResult::Incomplete,
            LineResult::TooLarge => return HeadResult::Failed(RequestError::TooLarge),
            LineResult::Line(lb, lp) => (lb, lp),
        };
        proof {
            lemma_read_line_advances(data@, pos as int, eof);
        }
        let ghost lbv = lb@;
        let text = match utf8_text(lb) {
            None => return HeadResult::Failed(RequestError::BadHeader),
            Some(t) => chars_of(t.as_str()),
        };
        if text.len() == 0 {
            end = lp;
            break;
        }
        if headers.len() >= MAX_HEADERS {
            return HeadResult::Failed(RequestError::TooLarge);
        }
        let i = find_char_in(&text, ':');
        let name = trim_chars(&slice_of(&text, 0, i));
        if i >= text.len() || name.len() == 0 {
            return HeadResult::Failed(RequestError::BadHeader);
        }
        let value = trim_chars(&slice_of(&text, i + 1, text.len()));
        let entry = (string_of(&lower_chars(&name)), string_of(&value));
        proof {
            if lbv.len() == 0 {
                assert(vstd::utf8::decode_utf8(lbv) =~= Seq::<char>::empty());
            }
            assert(text@.skip(i + 1) =~= text@.subrange(i + 1, text@.len() as int));
            assert(text@.take(i as int) =~= text@.subrange(0, i as int));
        }
        headers.push(entry);
        assert(pairs_view(headers@) =~= hv.push((entry.0@, entry.1@)));
        pos = lp;
    }
    let hi = stored_index(&headers, "host");
    let host = if hi < headers.len() {
        normalize_host(headers[hi].1.as_str())
    } else {
        String::new()
    };
    let ci = stored_index(&headers, "content-length");
    let length: usize = if ci < headers.len() {
        match parse_usize_chars(&chars_of(headers[ci].1.as_str())) {
            Some(n) => n,
            None => 0,
        }
    } else {
        0
    };
    if length > MAX_BODY_BYTES {
        return HeadResult::Failed(RequestError::TooLarge);
    }
    let target = string_of(&ws[1]);
    let t = chars_of(target.as_str());
    let q = find_char_in(&t, '?');
    let (path, query) = if q < t.len() {
        (string_of(&slice_of(&t, 0, q)), Some(string_of(&slice_of(&t, q + 1, t.len()))))
    } else {
        (string_of(&t), None)
    };
    let request = Request {
        method: string_of(&upper_chars(&ws[0])),
        host,
        path,
        query,
        headers,
        body: Vec::new(),
        client_ip: String::from_str(peer_ip),
    };
    HeadResult::Complete { request, content_length: length, head_len: end }
}


// ----- writing responses -------------------------------------------------------------------

pub open spec fn reason_phrase(status: u16) -> Seq<char> {
    if status == 200 {
        "OK"@
    } else if status == 400 {
        "Bad Request"@
    } else if status == 401 {
        "Unauthorized"@
    } else if status == 403 {
        "Forbidden"@
    } else if status == 404 {
        "Not Found"@
    } else if status == 429 {
        "Too Many Requests"@
    } else if status == 502 {
        "Bad Gateway"@
    } else {
        "Error"@
    }
}

/// The text without carriage returns and line feeds, so it fits in one header line.
pub open spec fn sanitized(s: Seq<char>) -> Seq<char>
    decreases s.len(),
{
    if s.len() == 0 {
        s
    } else if s.last() == '\r' || s.last() == '\n' {
        sanitized(s.drop_last())
    } else {
        sanitized(s.drop_last()).push(s.last())
    }
}

/// `name: value` lines, each ended by CRLF.
pub open spec fn header_block(hs: Headers) -> Seq<char>
    decreases hs.len(),
{
    if hs.len() == 0 {
        Seq::empty()
    } else {
        header_block(hs.drop_last()) + hs.last().0 + ": "@ + hs.last().1 + "\r\n"@
    }
}

pub open spec fn response_body(status: u16, phrase: Seq<char>, reason: Seq<char>) -> Seq<char> {
    decimal(status as nat) + " "@ + phrase + ": "@ + reason + "\n"@
}

/// A plain-text response with its status, the reason in a header and in the
/// body, and the extra headers given.
pub open spec fn response_text(status: u16, phrase: Seq<char>, reason: Seq<char>, hs: Headers) -> Seq<char> {
    let body = response_body(status, phrase, reason);
    "HTTP/1.1 "@ + decimal(status as nat) + " "@ + phrase + "\r\n"@
        + "Content-Type: text/plain; charset=utf-8\r\n"@ + "Content-Length: "@ + decimal(
        utf8_len(body),
    ) + "\r\n"@ + "X-Tollgate-Reason: "@ + sanitized(reason) + "\r\n"@ + header_block(hs)
        + "Connection: close\r\n\r\n"@ + body
}

/// The headers forwarded upstream: all but `connection`.
pub open spec fn forwarded_block(hs: Headers) -> Seq<char>
    decreases hs.len(),
{
    if hs.len() == 0 {
        Seq::empty()
    } else if hs.last().0 == "connection"@ {
        forwarded_block(hs.drop_last())
    } else {
        forwarded_block(hs.drop_last()) + hs.last().0 + ": "@ + hs.last().1 + "\r\n"@
    }
}

pub open spec fn request_target(req: RequestView) -> Seq<char> {
    match req.query {
        Some(q) => req.path + "?"@ + q,
        None => req.path,
    }
}

/// The head of the request sent upstream: request line, forwarded headers, and
/// `Connection: close` so that reading the response to its end is correct.
pub open spec fn upstream_head_text(req: RequestView) -> Seq<char> {
    req.method + " "@ + request_target(req) + " HTTP/1.1\r\n"@ + forwarded_block(req.headers)
        + "Connection: close\r\n\r\n"@
}

pub fn reason_phrase_of(status: u16) -> (r: &'static str)
    ensures
        r@ == reason_phrase(status),
{
    if status == 200 {
        "OK"
    } else if status == 400 {
        "Bad Request"
    } else if status == 401 {
        "Unauthorized"
    } else if status == 403 {
        "Forbidden"
    } else if status == 404 {
        "Not Found"
    } else if status == 429 {
        "Too Many Requests"
    } else if status == 502 {
        "Bad Gateway"
    } else {
        "Error"
    }
}

pub fn sanitize(s: &str) -> (r: String)
    ensures
        r@ == sanitized(s@),
{
    let v = chars_of(s);
    let mut out: Vec<char> = Vec::new();
    let mut i: usize = 0;
    while i < v.len()
        invariant
            i <= v@.len(),
            out@ == sanitized(v@.take(i as int)),
        decreases v.len() - i,
    {
        assert(v@.take(i + 1).drop_last() =~= v@.take(i as int));
        assert(v@.take(i + 1).last() == v@[i as int]);
        if v[i] != '\r' && v[i] != '\n' {
            out.push(v[i]);
        }
        i = i + 1;
    }
    assert(v@.take(v@.len() as int) =~= v@);
    string_of(&out)
}

fn header_block_chars(hs: &Vec<(String, String)>, skip_connection: bool) -> (r: Vec<char>)
    ensures
        r@ == if skip_connection {
            forwarded_block(pairs_view(hs@))
        } else {
            header_block(pairs_view(hs@))
        },
{
    let ghost hv = pairs_view(hs@);
    let mut out: Vec<char> = Vec::new();
    let mut i: usize = 0;
    while i < hs.len()
        invariant
            hv == pairs_view(hs@),
            i <= hs@.len(),
            out@ == if skip_connection {
                forwarded_block(hv.take(i as int))
            } else {
                header_block(hv.take(i as int))
            },
        decreases hs.len() - i,
    {
        assert(hv.take(i + 1).drop_last() =~= hv.take(i as int));
        assert(hv.take(i + 1).last() == (hs@[i as int].0@, hs@[i as int].1@));
        let n = chars_of(hs[i].0.as_str());
        if !(skip_connection && chars_eq(&n, &chars_of("connection"))) {
            let line = concat(
                &concat(&concat(&n, &chars_of(": ")), &chars_of(hs[i].1.as_str())),
                &chars_of("\r\n"),
            );
            out = concat(&out, &line);
        }
        i = i + 1;
    }
    assert(hv.take(hs@.len() as int) =~= hv);
    out
}

fn response_chars(status: u16, phrase: &str, reason: &str, headers: &Vec<(String, String)>) -> (r: Vec<char>)
    ensures
        r@ == response_text(status, phrase@, reason@, pairs_view(headers@)),
{
    let code = decimal_chars(status as u64);
    let body_chars = concat(
        &concat(&concat(&concat(&code, &chars_of(" ")), &chars_of(phrase)), &chars_of(": ")),
        &concat(&chars_of(reason), &chars_of("\n")),
    );
    let body = string_of(&body_chars);
    let body_len = body.as_str().as_bytes().len();
    let mut out = concat(&concat(&chars_of("HTTP/1.1 "), &code), &chars_of(" "));
    out = concat(&concat(&out, &chars_of(phrase)), &chars_of("\r\n"));
    out = concat(&out, &chars_of("Content-Type: text/plain; charset=utf-8\r\n"));
    out = concat(&concat(&out, &chars_of("Content-Length: ")), &decimal_chars(body_len as u64));
    out = concat(&out, &chars_of("\r\n"));
    out = concat(&concat(&out, &chars_of("X-Tollgate-Reason: ")), &chars_of(sanitize(reason).as_str()));
    out = concat(&out, &chars_of("\r\n"));
    out = concat(&out, &header_block_chars(headers, false));
    out = concat(&out, &chars_of("Connection: close\r\n\r\n"));
    out = concat(&out, &body_chars);
    assert(body@ =~= response_body(status, phrase@, reason@));
    assert(out@ =~= response_text(status, phrase@, reason@, pairs_view(headers@)));
    out
}

/// The response that carries a rejection: its status with the standard phrase,
/// the reason, and the rejection's own headers.
pub fn rejection_response(status: u16, reason: &str, headers: &Vec<(String, String)>) -> (r: String)
    ensures
        r@ == response_text(status, reason_phrase(status), reason@, pairs_view(headers@)),
{
    string_of(&response_chars(status, reason_phrase_of(status), reason, headers))
}

/// A response with the given status and phrase and no extra headers, as sent for
/// a request that could not be read.
pub fn simple_response(status: u16, phrase: &str, reason: &str) -> (r: String)
    ensures
        r@ == response_text(status, phrase@, reason@, Seq::empty()),
{
    let none: Vec<(String, String)> = Vec::new();
    assert(pairs_view(none@) =~= Seq::<(Seq<char>, Seq<char>)>::empty());
    string_of(&response_chars(status, phrase, reason, &none))
}

/// What the gateway answers when a request head cannot be read: nothing for an
/// empty request (the peer sent no request at all), otherwise a `400 Bad Request`
/// whose reason is the error's text.
pub fn head_error_response(e: RequestError) -> (r: Option<String>)
    ensures
        match r {
            None => e == RequestError::Empty,
            Some(t) => e != RequestError::Empty && t@ == response_text(
                400,
                "Bad Request"@,
                request_error_text(e),
                Seq::empty(),
            ),
        },
{
    match e {
        RequestError::Empty => None,
        _ => Some(simple_response(400, "Bad Request", e.to_string().as_str())),
    }
}

/// The head of the request forwarded to the upstream.
pub fn upstream_head(req: &Request) -> (r: String)
    ensures
        r@ == upstream_head_text(req@),
{
    let mut target = chars_of(req.path.as_str());
    if let Some(q) = &req.query {
        target = concat(&concat(&target, &chars_of("?")), &chars_of(q.as_str()));
    }
    let mut out = concat(&concat(&chars_of(req.method.as_str()), &chars_of(" ")), &target);
    out = concat(&out, &chars_of(" HTTP/1.1\r\n"));
    out = concat(&out, &header_block_chars(&req.headers, true));
    out = concat(&out, &chars_of("Connection: close\r\n\r\n"));
    assert(out@ =~= upstream_head_text(req@));
    string_of(&out)
}

// ----- laws ----------------------------------------------------------------------

/// A header as the wire reader stores it: a non-empty, trimmed, lowercase name and
/// a trimmed value.
pub open spec fn stored_header_ok(h: (Seq<char>, Seq<char>)) -> bool {
    &&& h.0.len() > 0
    &&& trimmed(h.0)
    &&& lower_seq(h.0) == h.0
    &&& trimmed(h.1)
}

proof fn lemma_lower_trimmed(s: Seq<char>)
    requires
        trimmed(s),
    ensures
        trimmed(lower_seq(s)),
        lower_seq(lower_seq(s)) == lower_seq(s),
        lower_seq(s).len() == s.len(),
{
    lemma_lower_idempotent(s);
    if s.len() > 0 {
        let u = lower_seq(s);
        assert(u[0] == lower(s[0]));
        assert(u.last() == lower(s.last()));
    }
}

proof fn lemma_headers_from_ok(data: Seq<u8>, pos: int, eof: bool, hs: Headers)
    requires
        hs.len() <= MAX_HEADERS,
        forall|k: int| 0 <= k < hs.len() ==> stored_header_ok(#[trigger] hs[k]),
    ensures
        headers_from(data, pos, eof, hs) matches Ok((hs2, end)) ==> {
            &&& hs2.len() <= MAX_HEADERS
            &&& forall|k: int| 0 <= k < hs2.len() ==> stored_header_ok(#[trigger] hs2[k])
            &&& pos <= end <= data.len()
            &&& end <= MAX_HEAD_BYTES
        },
    decreases data.len() - pos,
{
    if 0 <= pos <= data.len() {
        lemma_read_line_advances(data, pos, eof);
        if let LineRead::Line(b, p) = read_line_at(data, pos, eof) {
            if let Some(line) = line_text(b) {
                if line.len() > 0 && hs.len() < MAX_HEADERS {
                    let i = find_char(line, ':');
                    let name = trim(line.take(i));
                    if i < line.len() && name.len() > 0 {
                        if b.len() == 0 {
                            assert(vstd::utf8::decode_utf8(b) =~= Seq::<char>::empty());
                        }
                        let value = trim(line.skip(i + 1));
                        lemma_trim(line.take(i));
                        lemma_trim(line.skip(i + 1));
                        lemma_lower_trimmed(name);
                        let h = (lower_seq(name), value);
                        let hs1 = hs.push(h);
                        assert forall|k: int| 0 <= k < hs1.len() implies stored_header_ok(#[trigger] hs1[k]) by {
                            if k < hs.len() {
                                assert(hs1[k] == hs[k]);
                            }
                        }
                        lemma_headers_from_ok(data, p, eof, hs1);
                    }
                }
            }
        }
    }
}

/// Every request head the reader accepts keeps to its bounds: at most
/// `MAX_HEADERS` headers, each with a non-empty, trimmed, lowercase name and a
/// trimmed value; the head took at most `MAX_HEAD_BYTES` of the bytes given; the
/// announced body is at most `MAX_BODY_BYTES`; the body is not yet read, and the
/// client address is the peer's.
pub proof fn law_head_bounds(data: Seq<u8>, eof: bool, peer: Seq<char>)
    ensures
        read_head(data, eof, peer) matches HeadOutcome::Complete(r, length, end) ==> {
            &&& r.headers.len() <= MAX_HEADERS
            &&& forall|k: int| 0 <= k < r.headers.len() ==> stored_header_ok(#[trigger] r.headers[k])
            &&& 0 <= end <= data.len()
            &&& end <= MAX_HEAD_BYTES
            &&& length <= MAX_BODY_BYTES
            &&& r.body.len() == 0
            &&& r.client_ip == peer
        },
{
    lemma_read_line_advances(data, 0, eof);
    if let LineRead::Line(b, p) = read_line_at(data, 0, eof) {
        lemma_headers_from_ok(data, p, eof, Seq::empty());
    }
}

proof fn lemma_read_line_stable(data: Seq<u8>, more: Seq<u8>, pos: int)
    requires
        0 <= pos <= data.len(),
        !(read_line_at(data, pos, false) is Incomplete),
    ensures
        read_line_at(data + more, pos, false) == read_line_at(data, pos, false),
{
    let all = data + more;
    let rest = data.skip(pos);
    let rest2 = all.skip(pos);
    assert(rest2 =~= rest + more);
    lemma_first_where(rest, is_byte(10u8));
    lemma_first_where(rest2, is_byte(10u8));
    let nl = first_where(rest, is_byte(10u8));
    let nl2 = first_where(rest2, is_byte(10u8));
    if nl < rest.len() {
        assert forall|j: int| 0 <= j < nl implies !is_byte(10u8)(#[trigger] rest2[j]) by {
            assert(rest2[j] == rest[j]);
        }
        assert(rest2[nl] == rest[nl]);
        lemma_first_where_is(rest2, is_byte(10u8), nl);
        assert(rest2.take(nl) =~= rest.take(nl));
    } else {
        if nl2 < rest.len() {
            assert(rest2[nl2] == rest[nl2]);
        }
        assert(nl2 >= rest.len());
    }
}

proof fn lemma_headers_stable(data: Seq<u8>, more: Seq<u8>, pos: int, hs: Headers)
    requires
        0 <= pos <= data.len(),
        headers_from(data, pos, false, hs) != Err::<(Headers, int), Option<RequestError>>(None),
    ensures
        headers_from(data + more, pos, false, hs) == headers_from(data, pos, false, hs),
    decreases data.len() - pos,
{
    let all = data + more;
    lemma_read_line_advances(data, pos, false);
    lemma_read_line_stable(data, more, pos);
    if let LineRead::Line(b, p) = read_line_at(data, pos, false) {
        if let Some(line) = line_text(b) {
            if line.len() > 0 && hs.len() < MAX_HEADERS {
                let i = find_char(line, ':');
                let name = trim(line.take(i));
                if i < line.len() && name.len() > 0 {
                    if b.len() == 0 {
                        assert(vstd::utf8::decode_utf8(b) =~= Seq::<char>::empty());
                    }
                    lemma_headers_stable(data, more, p, hs.push((lower_seq(name), trim(line.skip(i + 1)))));
                }
            }
        }
    }
}

/// Reading a head from a growing input: once the bytes received so far give an
/// answer other than `Incomplete`, more bytes do not change it. So reading a
/// client's bytes piece by piece, and stopping at the first answer, gives what
/// reading the whole input at once gives.
pub proof fn law_head_answer_is_final(data: Seq<u8>, more: Seq<u8>, peer: Seq<char>)
    requires
        !(read_head(data, false, peer) is Incomplete),
    ensures
        read_head(data + more, false, peer) == read_head(data, false, peer),
{
    lemma_read_line_advances(data, 0, false);
    lemma_read_line_stable(data, more, 0);
    if let LineRead::Line(b, p) = read_line_at(data, 0, false) {
        if headers_from(data, p, false, Seq::empty()) != Err::<(Headers, int), Option<RequestError>>(None) {
            lemma_headers_stable(data, more, p, Seq::empty());
        }
    }
}

} // verus!
