use vstd::prelude::*;

use crate::request::{
    header_index, header_value, headers_set, headers_without, law_header_read_after_set,
    law_header_remove, law_header_set_keeps_others, name_is, Headers, Request, RequestView,
};
use crate::route::{Shaping, ShapingView};
use crate::text::{
    chars_of, concat, lemma_first_where, lemma_first_where_is, lemma_lower_idempotent, lower_chars, lower_seq, slice_of,
    starts_with, starts_with_chars, string_of,
};

verus! {

pub open spec fn with_leading_slash(p: Seq<char>) -> Seq<char> {
    if p.len() > 0 && p[0] == '/' {
        p
    } else {
        seq!['/'] + p
    }
}

/// The path after the strip and add prefix rules.
pub open spec fn shaped_path(path: Seq<char>, sh: ShapingView) -> Seq<char> {
    let stripped = match sh.strip_prefix {
        Some(s) => if starts_with(path, s) {
            with_leading_slash(path.skip(s.len() as int))
        } else {
            path
        },
        None => path,
    };
    match sh.add_prefix {
        Some(a) => a + stripped,
        None => stripped,
    }
}

/// Headers after removing each named header in turn.
pub open spec fn remove_all(hs: Headers, names: Seq<Seq<char>>) -> Headers
    decreases names.len(),
{
    if names.len() == 0 {
        hs
    } else {
        headers_without(remove_all(hs, names.drop_last()), lower_seq(names.last()))
    }
}

/// Headers after setting (replace or insert) each pair in turn.
pub open spec fn set_all(hs: Headers, pairs: Headers) -> Headers
    decreases pairs.len(),
{
    if pairs.len() == 0 {
        hs
    } else {
        headers_set(set_all(hs, pairs.drop_last()), pairs.last().0, pairs.last().1)
    }
}

/// Headers with each pair appended, names lowercased, even when already present.
pub open spec fn add_all(hs: Headers, pairs: Headers) -> Headers {
    hs + lowered_names(pairs)
}

pub open spec fn lowered_names(pairs: Headers) -> Headers {
    pairs.map_values(|p: (Seq<char>, Seq<char>)| (lower_seq(p.0), p.1))
}

pub open spec fn shaped_headers(hs: Headers, sh: ShapingView) -> Headers {
    add_all(set_all(remove_all(hs, sh.remove_headers), sh.set_headers), sh.add_headers)
}

/// The request as the upstream receives it: strip prefix, add prefix, remove
/// headers, set headers, then add headers.
pub open spec fn shaped(req: RequestView, sh: ShapingView) -> RequestView {
    RequestView { path: shaped_path(req.path, sh), headers: shaped_headers(req.headers, sh), ..req }
}

fn ensure_leading_slash(path: &Vec<char>) -> (r: Vec<char>)
    ensures
        r@ == with_leading_slash(path@),
{
    if path.len() > 0 && path[0] == '/' {
        slice_of(path, 0, path.len())
    } else {
        let slash = vec!['/'];
        assert(slash@ =~= seq!['/']);
        concat(&slash, path)
    }
}

/// Rewrite a request per a route's shaping rules before it is forwarded.
///
/// Order is deliberate and easy to reason about: strip prefix, then add prefix,
/// then remove headers, then set (replace-or-insert), then add (append even if
/// present). The returned request is what the upstream actually receives.
pub fn shape_request(req: Request, shaping: &Shaping) -> (r: Request)
    ensures
        r@ == shaped(req@, shaping@),
{
    let ghost sh = shaping@;
    let ghost orig = req@;
    let mut req = req;
    let path = chars_of(req.path.as_str());
    let mut p = slice_of(&path, 0, path.len());
    if let Some(strip) = &shaping.strip_prefix {
        let sc = chars_of(strip.as_str());
        if starts_with_chars(&path, &sc) {
            p = ensure_leading_slash(&slice_of(&path, sc.len(), path.len()));
        }
    }
    if let Some(add) = &shaping.add_prefix {
        p = concat(&chars_of(add.as_str()), &p);
    }
    req.path = string_of(&p);
    assert(req@.path == shaped_path(orig.path, sh));

    let mut i: usize = 0;
    while i < shaping.remove_headers.len()
        invariant
            sh == shaping@,
            i <= shaping.remove_headers.len(),
            req@ == (RequestView {
                path: shaped_path(orig.path, sh),
                headers: remove_all(orig.headers, sh.remove_headers.take(i as int)),
                ..orig
            }),
        decreases shaping.remove_headers.len() - i,
    {
        req.remove_header(shaping.remove_headers[i].as_str());
        proof {
            assert(sh.remove_headers.take(i + 1).drop_last() =~= sh.remove_headers.take(i as int));
        }
        i = i + 1;
    }
    assert(sh.remove_headers.take(shaping.remove_headers.len() as int) =~= sh.remove_headers);

    let mut j: usize = 0;
    while j < shaping.set_headers.len()
        invariant
            sh == shaping@,
            j <= shaping.set_headers.len(),
            req@ == (RequestView {
                path: shaped_path(orig.path, sh),
                headers: set_all(remove_all(orig.headers, sh.remove_headers), sh.set_headers.take(j as int)),
                ..orig
            }),
        decreases shaping.set_headers.len() - j,
    {
        req.set_header(shaping.set_headers[j].0.as_str(), shaping.set_headers[j].1.as_str());
        proof {
            assert(sh.set_headers.take(j + 1).drop_last() =~= sh.set_headers.take(j as int));
        }
        j = j + 1;
    }
    assert(sh.set_headers.take(shaping.set_headers.len() as int) =~= sh.set_headers);

    let ghost base = req@.headers;
    let mut k: usize = 0;
    while k < shaping.add_headers.len()
        invariant
            sh == shaping@,
            k <= shaping.add_headers.len(),
            base == set_all(remove_all(orig.headers, sh.remove_headers), sh.set_headers),
            req@ == (RequestView {
                path: shaped_path(orig.path, sh),
                headers: add_all(base, sh.add_headers.take(k as int)),
                ..orig
            }),
        decreases shaping.add_headers.len() - k,
    {
        let name = string_of(&lower_chars(&chars_of(shaping.add_headers[k].0.as_str())));
        let value = shaping.add_headers[k].1.clone();
        let ghost prev = req@.headers;
        req.headers.push((name, value));
        proof {
            assert(sh.add_headers[k as int] == (shaping.add_headers@[k as int].0@, shaping.add_headers@[k as int].1@));
            assert(req@.headers =~= prev.push((name@, value@)));
            let ta = sh.add_headers.take(k as int);
            let tb = sh.add_headers.take(k + 1);
            assert(lowered_names(tb) =~= lowered_names(ta).push((lower_seq(sh.add_headers[k as int].0), sh.add_headers[k as int].1)));
            assert(req@.headers =~= add_all(base, sh.add_headers.take(k + 1)));
        }
        k = k + 1;
    }
    assert(sh.add_headers.take(shaping.add_headers.len() as int) =~= sh.add_headers);
    req
}

// ----- laws ------------------------------------------------------------------

/// Appending headers leaves the lookup of a header already present unchanged.
proof fn lemma_header_value_append(hs: Headers, more: Headers, name: Seq<char>)
    requires
        header_value(hs, name) is Some,
    ensures
        header_value(hs + more, name) == header_value(hs, name),
{
    let n = lower_seq(name);
    let all = hs + more;
    lemma_first_where(hs, name_is(n));
    let i = header_index(hs, n);
    assert forall|j: int| 0 <= j < i implies !name_is(n)(#[trigger] all[j]) by {
        assert(all[j] == hs[j]);
    }
    assert(all[i] == hs[i]);
    lemma_first_where_is(all, name_is(n), i);
}

/// After a run of sets, a name set at `i` and not set again later reads back the
/// value set at `i`.
proof fn lemma_set_all_reads(hs: Headers, pairs: Headers, i: int)
    requires
        0 <= i < pairs.len(),
        forall|j: int| i < j < pairs.len() ==> lower_seq(#[trigger] pairs[j].0) != lower_seq(pairs[i].0),
    ensures
        header_value(set_all(hs, pairs), pairs[i].0) == Some(pairs[i].1),
    decreases pairs.len(),
{
    let last = pairs.last();
    let before = pairs.drop_last();
    if i == pairs.len() - 1 {
        law_header_read_after_set(set_all(hs, before), last.0, last.1, pairs[i].0);
    } else {
        assert forall|j: int| i < j < before.len() implies lower_seq(#[trigger] before[j].0) != lower_seq(
            before[i].0,
        ) by {
            assert(before[j] == pairs[j]);
        }
        lemma_set_all_reads(hs, before, i);
        assert(before[i] == pairs[i]);
        assert(lower_seq(pairs[pairs.len() - 1].0) != lower_seq(pairs[i].0));
        law_header_set_keeps_others(set_all(hs, before), last.0, last.1, pairs[i].0);
    }
}

/// A header the route sets reaches the upstream with the value of its last
/// `set_header`: removals run before the sets, and additions only append after them.
pub proof fn law_set_header_reads_back(req: RequestView, sh: ShapingView, i: int)
    requires
        0 <= i < sh.set_headers.len(),
        forall|j: int|
            i < j < sh.set_headers.len() ==> lower_seq(#[trigger] sh.set_headers[j].0) != lower_seq(
                sh.set_headers[i].0,
            ),
    ensures
        header_value(shaped(req, sh).headers, sh.set_headers[i].0) == Some(sh.set_headers[i].1),
{
    let set = set_all(remove_all(req.headers, sh.remove_headers), sh.set_headers);
    lemma_set_all_reads(remove_all(req.headers, sh.remove_headers), sh.set_headers, i);
    lemma_header_value_append(set, lowered_names(sh.add_headers), sh.set_headers[i].0);
}

/// Once a name reads as absent, further removals keep it absent; removing the name
/// itself at `i` makes it absent.
proof fn lemma_remove_all_absent(hs: Headers, names: Seq<Seq<char>>, i: int, n: Seq<char>)
    requires
        0 <= i < names.len(),
        lower_seq(names[i]) == lower_seq(n),
    ensures
        header_value(remove_all(hs, names), n) is None,
    decreases names.len(),
{
    let before = names.drop_last();
    if i == names.len() - 1 {
        law_header_remove(remove_all(hs, before), names.last(), n);
    } else {
        assert(before[i] == names[i]);
        lemma_remove_all_absent(hs, before, i, n);
        law_header_remove(remove_all(hs, before), names.last(), n);
    }
}

/// Sets of other names leave an absent name absent.
proof fn lemma_set_all_absent(hs: Headers, pairs: Headers, n: Seq<char>)
    requires
        header_value(hs, n) is None,
        forall|j: int| 0 <= j < pairs.len() ==> lower_seq(#[trigger] pairs[j].0) != lower_seq(n),
    ensures
        header_value(set_all(hs, pairs), n) is None,
    decreases pairs.len(),
{
    if pairs.len() > 0 {
        let before = pairs.drop_last();
        assert forall|j: int| 0 <= j < before.len() implies lower_seq(#[trigger] before[j].0) != lower_seq(n) by {
            assert(before[j] == pairs[j]);
        }
        lemma_set_all_absent(hs, before, n);
        assert(lower_seq(pairs[pairs.len() - 1].0) != lower_seq(n));
        law_header_set_keeps_others(set_all(hs, before), pairs.last().0, pairs.last().1, n);
    }
}

/// A header the route removes does not reach the upstream, unless the route also
/// sets or adds a header of that name.
pub proof fn law_removed_header_absent(req: RequestView, sh: ShapingView, i: int, n: Seq<char>)
    requires
        0 <= i < sh.remove_headers.len(),
        lower_seq(sh.remove_headers[i]) == lower_seq(n),
        forall|j: int| 0 <= j < sh.set_headers.len() ==> lower_seq(#[trigger] sh.set_headers[j].0) != lower_seq(n),
        forall|j: int| 0 <= j < sh.add_headers.len() ==> lower_seq(#[trigger] sh.add_headers[j].0) != lower_seq(n),
    ensures
        header_value(shaped(req, sh).headers, n) is None,
{
    let removed = remove_all(req.headers, sh.remove_headers);
    lemma_remove_all_absent(req.headers, sh.remove_headers, i, n);
    let set = set_all(removed, sh.set_headers);
    lemma_set_all_absent(removed, sh.set_headers, n);
    let added = lowered_names(sh.add_headers);
    let all = set + added;
    let m = lower_seq(n);
    lemma_first_where(set, name_is(m));
    assert forall|j: int| 0 <= j < all.len() implies !name_is(m)(#[trigger] all[j]) by {
        if j < set.len() {
            assert(all[j] == set[j]);
        } else {
            let k = j - set.len();
            assert(all[j] == added[k]);
            assert(added[k].0 == lower_seq(sh.add_headers[k].0));
            lemma_lower_idempotent(sh.add_headers[k].0);
            lemma_lower_idempotent(n);
        }
    }
    lemma_first_where_is(all, name_is(m), all.len() as int);
}

/// The added prefix does not depend on the strip rule: with `add_prefix` set to
/// `a`, the shaped path is `a` followed by the path the strip rule alone gives,
/// whether or not the strip prefix matched.
pub proof fn law_add_prefix_always_applies(path: Seq<char>, sh: ShapingView, a: Seq<char>)
    requires
        sh.add_prefix == Some(a),
    ensures
        shaped_path(path, sh) == a + shaped_path(path, ShapingView { add_prefix: None, ..sh }),
{
}

/// A strip prefix that the path does not start with leaves the path as it is.
pub proof fn law_unmatched_strip_keeps_path(path: Seq<char>, sh: ShapingView, s: Seq<char>)
    requires
        sh.strip_prefix == Some(s),
        !starts_with(path, s),
        sh.add_prefix is None,
    ensures
        shaped_path(path, sh) == path,
{
}

/// A matched strip prefix is removed and the rest keeps a leading `/`: the path is
/// the prefix followed by what remains, less at most that one added `/`.
pub proof fn law_matched_strip_removes_prefix(path: Seq<char>, sh: ShapingView, s: Seq<char>)
    requires
        sh.strip_prefix == Some(s),
        starts_with(path, s),
        sh.add_prefix is None,
    ensures
        shaped_path(path, sh).len() > 0,
        shaped_path(path, sh)[0] == '/',
        path == s + shaped_path(path, sh) || path == s + shaped_path(path, sh).drop_first(),
{
    let rest = path.skip(s.len() as int);
    assert(path =~= s + rest);
    if rest.len() > 0 && rest[0] == '/' {
    } else {
        assert((seq!['/'] + rest).drop_first() =~= rest);
    }
}

} // verus!
