//! Registry keys of HTTP modules: which URLs name the same module.

use crate::loader::vocabulary::{Canonicalization, CanonicalizationView, LoaderVocabulary};
use crate::order;
use crate::text;
use vstd::prelude::*;

verus! {

/// Whether `s` is an HTTP or HTTPS URL.
pub open spec fn http(s: Seq<char>) -> bool {
    "http://"@.is_prefix_of(s) || "https://"@.is_prefix_of(s)
}

/// Whether `url` starts with `scheme`, which ends in one slash, and no second slash follows.
pub open spec fn collapsed(url: Seq<char>, scheme: Seq<char>) -> bool {
    scheme.is_prefix_of(url) && !scheme.push('/').is_prefix_of(url)
}

/// `url` with the slash back that a path join took from its scheme.
pub open spec fn repaired(url: Seq<char>) -> Seq<char> {
    if collapsed(url, "http:/"@) {
        "http:/"@.push('/') + url.skip("http:/"@.len() as int)
    } else if collapsed(url, "https:/"@) {
        "https:/"@.push('/') + url.skip("https:/"@.len() as int)
    } else {
        url
    }
}

/// The URL that `url` means: its scheme repaired, and a `file://` before an HTTP URL taken off.
pub open spec fn unwrapped(url: Seq<char>) -> Seq<char> {
    let u = repaired(url);
    if "file://http:/"@.is_prefix_of(u) || "file://https:/"@.is_prefix_of(u) {
        repaired(u.skip("file://"@.len() as int))
    } else {
        u
    }
}

/// `url` up to its fragment.
pub open spec fn without_fragment(url: Seq<char>) -> Seq<char> {
    url.take(text::pos_from(url, '#', 0))
}

/// Where the authority of an HTTP URL starts.
pub open spec fn authority_start(url: Seq<char>) -> int {
    if "http://"@.is_prefix_of(url) {
        "http://"@.len() as int
    } else {
        "https://"@.len() as int
    }
}

/// Where the path of an HTTP URL starts; its length when it has none.
pub open spec fn path_start(url: Seq<char>) -> int {
    text::pos_from(url, '/', authority_start(url))
}

/// Where the path ends: at the question mark, or at the end of the URL.
pub open spec fn path_end(url: Seq<char>) -> int {
    text::pos_from(url, '?', path_start(url))
}

/// The path of an HTTP URL that has one.
pub open spec fn path(url: Seq<char>) -> Seq<char> {
    url.subrange(path_start(url), path_end(url))
}

/// What follows the question mark; nothing where there is none.
pub open spec fn query(url: Seq<char>) -> Seq<char> {
    if path_end(url) < url.len() {
        url.skip(path_end(url) + 1)
    } else {
        Seq::empty()
    }
}

/// Whether the path contains one of the patterns that keep a query as identity.
pub open spec fn preserved(c: CanonicalizationView, path: Seq<char>) -> bool {
    exists|i: int|
        0 <= i < c.preserve_query_for.len() && (#[trigger] c.preserve_query_for[i]).len() > 0
            && text::contains_text(path, c.preserve_query_for[i])
}

/// Whether the path starts with one of the dev prefixes.
pub open spec fn under_dev_prefix(c: CanonicalizationView, path: Seq<char>) -> bool {
    exists|i: int|
        0 <= i < c.dev_path_prefixes.len() && (#[trigger] c.dev_path_prefixes[i]).len() > 0
            && c.dev_path_prefixes[i].is_prefix_of(path)
}

/// Whether the vocabulary says that the query of `url`, an HTTP URL without fragment, is to be
/// canonicalized.
pub open spec fn dev_endpoint(c: CanonicalizationView, url: Seq<char>) -> bool {
    &&& path_start(url) < url.len()
    &&& !preserved(c, path(url))
    &&& under_dev_prefix(c, path(url))
}

/// The name of a query parameter.
pub open spec fn param_name(pair: Seq<char>) -> Seq<char> {
    pair.take(text::pos_from(pair, '=', 0))
}

/// Whether a query parameter is identity: there is one, and it is no cache buster.
pub open spec fn keeps(c: CanonicalizationView) -> spec_fn(Seq<char>) -> bool {
    |pair: Seq<char>| pair.len() > 0 && !c.strip_params.contains(param_name(pair))
}

/// The parameters of a query that are identity, in the order they are written.
pub open spec fn kept(c: CanonicalizationView, query: Seq<char>) -> Seq<Seq<char>> {
    text::split(query, '&').filter(keeps(c))
}

/// `base` with the parameters `kept` in code point order.
pub open spec fn with_query(base: Seq<char>, kept: Seq<Seq<char>>) -> Seq<char> {
    if kept.len() == 0 {
        base
    } else {
        base.push('?') + text::join(order::sorted_texts(kept), "&"@)
    }
}

/// The registry key of a URL.
pub open spec fn key(url: Seq<char>, canon: Option<CanonicalizationView>) -> Seq<char> {
    let u = unwrapped(url);
    if !http(u) {
        u
    } else {
        let w = without_fragment(u);
        match canon {
            None => w,
            Some(c) => if dev_endpoint(c, w) {
                with_query(w.take(path_end(w)), kept(c, query(w)))
            } else {
                w
            },
        }
    }
}

/// Whether `s` is an HTTP or HTTPS URL.
pub fn is_http(s: &str) -> (r: bool)
    ensures
        r == http(s@),
{
    text::text_starts_with(s, "http://") || text::text_starts_with(s, "https://")
}

/// `url` with a slash put behind `scheme`, where it has only the one.
fn repair_scheme(url: &Vec<char>, scheme: &str) -> (r: Option<Vec<char>>)
    ensures
        match r {
            Some(v) => collapsed(url@, scheme@) && v@ == scheme@.push('/') + url@.skip(
                scheme@.len() as int,
            ),
            None => !collapsed(url@, scheme@),
        },
{
    let mut head = text::chars_of(scheme);
    let n: usize = head.len();
    if !text::starts_with(url, &head) {
        return None;
    }
    head.push('/');
    if text::starts_with(url, &head) {
        return None;
    }
    let mut rest = text::piece(url, n, url.len());
    assert(rest@ == url@.skip(n as int));
    head.append(&mut rest);
    Some(head)
}

/// `url` with the slash back that a path join took from its scheme.
fn repair_chars(url: &Vec<char>) -> (r: Vec<char>)
    ensures
        r@ == repaired(url@),
{
    match repair_scheme(url, "http:/") {
        Some(v) => v,
        None => match repair_scheme(url, "https:/") {
            Some(v) => v,
            None => {
                let r = text::piece(url, 0, url.len());
                assert(r@ == url@);
                r
            },
        },
    }
}

/// `http:/host` (one slash, left by path joins) back to `http://host`, so the collapsed form keys
/// and resolves as the URL it means.
pub fn repair_collapsed_scheme(url: &str) -> (r: String)
    ensures
        r@ == repaired(url@),
{
    text::string_of(&repair_chars(&text::chars_of(url)))
}

/// The URL that `url` means.
fn unwrap_url(url: &Vec<char>) -> (r: Vec<char>)
    ensures
        r@ == unwrapped(url@),
{
    let u = repair_chars(url);
    if text::starts_with(&u, &text::chars_of("file://http:/")) || text::starts_with(
        &u,
        &text::chars_of("file://https:/"),
    ) {
        proof {
            reveal_strlit("file://http:/");
            reveal_strlit("file://https:/");
            reveal_strlit("file://");
        }
        let n: usize = text::chars_of("file://").len();
        let rest = text::piece(&u, n, u.len());
        assert(rest@ == u@.skip(n as int));
        repair_chars(&rest)
    } else {
        u
    }
}

/// Whether the path contains one of the patterns that keep a query as identity.
fn is_preserved(c: &Canonicalization, path: &Vec<char>) -> (r: bool)
    ensures
        r == preserved(c@, path@),
{
    for i in 0..c.preserve_query_for.len()
        invariant
            forall|j: int|
                0 <= j < i ==> !((#[trigger] c@.preserve_query_for[j]).len() > 0
                    && text::contains_text(path@, c@.preserve_query_for[j])),
    {
        let p = text::chars_of(c.preserve_query_for[i].as_str());
        assert(c@.preserve_query_for[i as int] == p@);
        if p.len() > 0 && text::has_infix(path, &p) {
            return true;
        }
    }
    false
}

/// Whether the path starts with one of the dev prefixes.
fn is_under_dev_prefix(c: &Canonicalization, path: &Vec<char>) -> (r: bool)
    ensures
        r == under_dev_prefix(c@, path@),
{
    for i in 0..c.dev_path_prefixes.len()
        invariant
            forall|j: int|
                0 <= j < i ==> !((#[trigger] c@.dev_path_prefixes[j]).len() > 0
                    && c@.dev_path_prefixes[j].is_prefix_of(path@)),
    {
        let p = text::chars_of(c.dev_path_prefixes[i].as_str());
        assert(c@.dev_path_prefixes[i as int] == p@);
        if p.len() > 0 && text::starts_with(path, &p) {
            return true;
        }
    }
    false
}

/// Whether a query parameter is identity.
fn is_kept(c: &Canonicalization, pair: &Vec<char>) -> (r: bool)
    ensures
        r == keeps(c@)(pair@),
{
    if pair.len() == 0 {
        return false;
    }
    let end: usize = text::find_char(pair, '=', 0);
    let name = text::string_of(&text::piece(pair, 0, end));
    assert(name@ == param_name(pair@));
    for i in 0..c.strip_params.len()
        invariant
            pair@.len() > 0,
            name@ == param_name(pair@),
            forall|j: int| 0 <= j < i ==> (#[trigger] c@.strip_params[j]) != name@,
    {
        assert(c@.strip_params[i as int] == c.strip_params@[i as int]@);
        if text::same_text(c.strip_params[i].as_str(), name.as_str()) {
            return false;
        }
    }
    true
}

/// The parameters of a query that are identity.
fn kept_params(c: &Canonicalization, query: &Vec<char>) -> (r: Vec<Vec<char>>)
    ensures
        text::rows(r@) == kept(c@, query@),
{
    let parts = text::pieces(query, '&');
    let ghost all = text::rows(parts@);
    let mut out: Vec<Vec<char>> = Vec::new();
    proof {
        reveal(Seq::filter);
        assert(text::rows(out@) =~= all.take(0).filter(keeps(c@)));
    }
    for i in 0..parts.len()
        invariant
            all == text::rows(parts@),
            text::rows(out@) == all.take(i as int).filter(keeps(c@)),
    {
        proof {
            reveal(Seq::filter);
            assert(all.take(i + 1).drop_last() == all.take(i as int));
            assert(all.take(i + 1).last() == parts@[i as int]@);
        }
        if is_kept(c, &parts[i]) {
            let ghost before = out@;
            let copy = text::piece(&parts[i], 0, parts[i].len());
            assert(copy@ == parts@[i as int]@);
            out.push(copy);
            assert(text::rows(out@) =~= text::rows(before).push(copy@));
        }
    }
    assert(all.take(parts@.len() as int) == all);
    out
}

/// Stable registry key for an HTTP(S) module URL. Always drops the fragment. For dev endpoints
/// (per the configured vocabulary) drops cache-buster params and sorts the rest; any other URL
/// keeps its query verbatim, since there it can be identity. Unconfigured, only the fragment goes.
pub fn canonicalize_http_url_key(vocabulary: &LoaderVocabulary, url: &str) -> (r: String)
    ensures
        r@ == key(url@, vocabulary@.canonicalization),
{
    let u = unwrap_url(&text::chars_of(url));
    let plain = text::starts_with(&u, &text::chars_of("http://"));
    if !plain && !text::starts_with(&u, &text::chars_of("https://")) {
        return text::string_of(&u);
    }
    let hash: usize = text::find_char(&u, '#', 0);
    let w = text::piece(&u, 0, hash);
    assert(w@ == without_fragment(u@));
    proof {
        reveal_strlit("http://");
        reveal_strlit("https://");
        lemma_fragment(u@);
    }
    let c = match &vocabulary.canonicalization {
        None => {
            return text::string_of(&w);
        },
        Some(c) => c,
    };
    let authority: usize = if plain {
        text::chars_of("http://").len()
    } else {
        text::chars_of("https://").len()
    };
    let start: usize = text::find_char(&w, '/', authority);
    let end: usize = text::find_char(&w, '?', start);
    let path = text::piece(&w, start, end);
    if start == w.len() || is_preserved(c, &path) || !is_under_dev_prefix(c, &path) {
        return text::string_of(&w);
    }
    let query = if end < w.len() {
        text::piece(&w, end + 1, w.len())
    } else {
        Vec::new()
    };
    assert(query@ == self::query(w@));
    let params = kept_params(c, &query);
    let base = text::piece(&w, 0, end);
    assert(base@ == w@.take(end as int));
    if params.len() == 0 {
        return text::string_of(&base);
    }
    let sorted = order::sort_texts(&params);
    let mut r = text::string_of(&base);
    r.push('?');
    r.append(text::joined(&sorted, "&").as_str());
    r
}

/// Taking the fragment off keeps an HTTP URL one, and the URL up to it.
proof fn lemma_fragment(u: Seq<char>)
    requires
        http(u),
    ensures
        http(without_fragment(u)),
        "http://"@.is_prefix_of(without_fragment(u)) == "http://"@.is_prefix_of(u),
        "https://"@.is_prefix_of(without_fragment(u)) == "https://"@.is_prefix_of(u),
        forall|i: int| 0 <= i < without_fragment(u).len() ==> without_fragment(u)[i] != '#',
{
    reveal_strlit("http://");
    reveal_strlit("https://");
    text::lemma_pos_from(u, '#', 0);
    let n = text::pos_from(u, '#', 0);
    let w = without_fragment(u);
    if "http://"@.is_prefix_of(u) {
        lemma_prefix_within(u, "http://"@, n);
    }
    if "https://"@.is_prefix_of(u) {
        lemma_prefix_within(u, "https://"@, n);
    }
    assert("http://"@.is_prefix_of(w) ==> "http://"@.is_prefix_of(u)) by {
        if "http://"@.is_prefix_of(w) {
            assert(u.subrange(0, 7) =~= w.subrange(0, 7));
        }
    }
    assert("https://"@.is_prefix_of(w) ==> "https://"@.is_prefix_of(u)) by {
        if "https://"@.is_prefix_of(w) {
            assert(u.subrange(0, 8) =~= w.subrange(0, 8));
        }
    }
}

/// A prefix without a `#` stands before the fragment.
proof fn lemma_prefix_within(u: Seq<char>, p: Seq<char>, n: int)
    requires
        p.is_prefix_of(u),
        0 <= n <= u.len(),
        n < u.len() ==> u[n] == '#',
        forall|i: int| 0 <= i < p.len() ==> p[i] != '#',
    ensures
        p.len() <= n,
        p.is_prefix_of(u.take(n)),
{
    if n < p.len() {
        assert(p[n] == u.subrange(0, p.len() as int)[n]);
    }
    assert(u.take(n).subrange(0, p.len() as int) =~= p);
}

/// Only characters before `i` are looked past: a position found from `i` on is found in any text
/// that agrees up to and with it.
proof fn lemma_pos_same(a: Seq<char>, b: Seq<char>, c: char, i: int)
    requires
        0 <= i <= a.len(),
        text::pos_from(a, c, i) <= b.len(),
        a.take(text::pos_from(a, c, i)) == b.take(text::pos_from(a, c, i)),
        text::pos_from(a, c, i) < b.len() ==> b[text::pos_from(a, c, i)] == c,
    ensures
        text::pos_from(b, c, i) == text::pos_from(a, c, i),
{
    text::lemma_pos_from(a, c, i);
    let p = text::pos_from(a, c, i);
    assert forall|j: int| i <= j < p implies b[j] != c by {
        assert(a.take(p)[j] == b.take(p)[j]);
    }
    text::lemma_pos_from_unique(b, c, i, p);
}

/// A URL in one piece is what it means.
proof fn lemma_unwrapped_http(u: Seq<char>)
    requires
        http(u),
    ensures
        unwrapped(u) == u,
{
    reveal_strlit("http:/");
    reveal_strlit("https:/");
    reveal_strlit("http://");
    reveal_strlit("https://");
    reveal_strlit("file://http:/");
    reveal_strlit("file://https:/");
    assert("http:/"@.push('/') =~= "http://"@);
    assert("https:/"@.push('/') =~= "https://"@);
    if "http:/"@.is_prefix_of(u) {
        assert("http:/"@[4] == u.subrange(0, 6)[4]);
    }
    if "https:/"@.is_prefix_of(u) {
        assert("https:/"@[4] == u.subrange(0, 7)[4]);
    }
    if "http://"@.is_prefix_of(u) {
        assert("http://"@[0] == u.subrange(0, 7)[0]);
        assert("http://"@[4] == u.subrange(0, 7)[4]);
    }
    if "https://"@.is_prefix_of(u) {
        assert("https://"@[0] == u.subrange(0, 8)[0]);
        assert("https://"@[4] == u.subrange(0, 8)[4]);
    }
    if "file://http:/"@.is_prefix_of(u) {
        assert("file://http:/"@[0] == u.subrange(0, 13)[0]);
    }
    if "file://https:/"@.is_prefix_of(u) {
        assert("file://https:/"@[0] == u.subrange(0, 14)[0]);
    }
}

/// What is no HTTP URL and means itself keeps meaning itself.
proof fn lemma_unwrapped_twice(url: Seq<char>)
    ensures
        unwrapped(unwrapped(url)) == unwrapped(url),
{
    reveal_strlit("http:/");
    reveal_strlit("https:/");
    reveal_strlit("http://");
    reveal_strlit("https://");
    reveal_strlit("file://");
    reveal_strlit("file://http:/");
    reveal_strlit("file://https:/");
    assert("http:/"@.push('/') =~= "http://"@);
    assert("https:/"@.push('/') =~= "https://"@);
    lemma_repaired(url);
    let u = repaired(url);
    if "file://http:/"@.is_prefix_of(u) || "file://https:/"@.is_prefix_of(u) {
        let v = u.skip(7);
        lemma_repaired(v);
        if "file://http:/"@.is_prefix_of(u) {
            assert(v.subrange(0, 6) =~= u.subrange(0, 13).subrange(7, 13));
            assert("file://http:/"@.subrange(7, 13) =~= "http:/"@);
        } else {
            assert(v.subrange(0, 7) =~= u.subrange(0, 14).subrange(7, 14));
            assert("file://https:/"@.subrange(7, 14) =~= "https:/"@);
        }
        lemma_unwrapped_http(repaired(v));
    } else if http(u) {
        lemma_unwrapped_http(u);
    }
}

/// A repaired URL that starts with a scheme has both its slashes.
proof fn lemma_repaired(url: Seq<char>)
    ensures
        "http:/"@.is_prefix_of(repaired(url)) || "https:/"@.is_prefix_of(repaired(url)) ==> http(
            repaired(url),
        ),
        "http:/"@.is_prefix_of(url) || "https:/"@.is_prefix_of(url) ==> http(repaired(url)),
        repaired(repaired(url)) == repaired(url),
{
    reveal_strlit("http:/");
    reveal_strlit("https:/");
    reveal_strlit("http://");
    reveal_strlit("https://");
    assert("http:/"@.push('/') =~= "http://"@);
    assert("https:/"@.push('/') =~= "https://"@);
    let r = repaired(url);
    if collapsed(url, "http:/"@) {
        assert(r.subrange(0, 7) =~= "http://"@);
    } else if collapsed(url, "https:/"@) {
        assert(r.subrange(0, 8) =~= "https://"@);
    }
    if http(r) {
        lemma_unwrapped_http(r);
        if "http://"@.is_prefix_of(r) {
            assert("http://"@[4] == r.subrange(0, 7)[4]);
        } else {
            assert("https://"@[4] == r.subrange(0, 8)[4]);
        }
        if "http:/"@.is_prefix_of(r) {
            assert("http:/"@[4] == r.subrange(0, 6)[4]);
        }
        if "https:/"@.is_prefix_of(r) {
            assert("https:/"@[4] == r.subrange(0, 7)[4]);
        }
    }
}

/// Whether `base` is an HTTP URL with a path, without query and fragment.
pub open spec fn plain_url(base: Seq<char>) -> bool {
    &&& http(base)
    &&& text::lacks(base, '#')
    &&& path_start(base) < base.len()
    &&& path_end(base) == base.len()
}

/// What follows a plain URL from its question mark on does not change its path.
proof fn lemma_behind_plain(base: Seq<char>, x: Seq<char>)
    requires
        plain_url(base),
        x.len() > 0 ==> x[0] == '?',
    ensures
        http(base + x),
        path_start(base + x) == path_start(base),
        path_end(base + x) == base.len(),
        path(base + x) == path(base),
        (base + x).take(base.len() as int) == base,
        query(base + x) == if x.len() > 0 {
            x.drop_first()
        } else {
            x
        },
{
    reveal_strlit("http://");
    reveal_strlit("https://");
    let u = base + x;
    let a = authority_start(base);
    if "http://"@.is_prefix_of(base) {
        assert(u.subrange(0, 7) =~= base.subrange(0, 7));
    } else {
        assert(u.subrange(0, 8) =~= base.subrange(0, 8));
        if "http://"@.is_prefix_of(u) {
            assert("http://"@[4] == u.subrange(0, 7)[4]);
            assert("https://"@[4] == u.subrange(0, 8)[4]);
        }
    }
    assert(authority_start(u) == a);
    text::lemma_pos_from(base, '/', a);
    let p = path_start(base);
    assert(base.take(p) =~= u.take(p));
    lemma_pos_same(base, u, '/', a);
    text::lemma_pos_from(base, '?', p);
    assert(base.take(base.len() as int) =~= u.take(base.len() as int));
    lemma_pos_same(base, u, '?', p);
    assert(u.take(base.len() as int) =~= base);
    assert(path(u) =~= path(base));
    assert(query(u) =~= if x.len() > 0 {
        x.drop_first()
    } else {
        x
    });
}

/// A URL without fragment, up to its query, is a plain URL with the same path.
proof fn lemma_before_query(w: Seq<char>)
    requires
        http(w),
        text::lacks(w, '#'),
        path_start(w) < w.len(),
    ensures
        plain_url(w.take(path_end(w))),
        path(w.take(path_end(w))) == path(w),
        path_start(w) <= path_end(w) <= w.len(),
{
    reveal_strlit("http://");
    reveal_strlit("https://");
    let a = authority_start(w);
    text::lemma_pos_from(w, '/', a);
    let p = path_start(w);
    text::lemma_pos_from(w, '?', p);
    let e = path_end(w);
    assert(e > p);
    let b = w.take(e);
    if "http://"@.is_prefix_of(w) {
        assert(b.subrange(0, 7) =~= w.subrange(0, 7));
    } else {
        assert(b.subrange(0, 8) =~= w.subrange(0, 8));
        if "http://"@.is_prefix_of(b) {
            assert("http://"@[4] == b.subrange(0, 7)[4]);
            assert("https://"@[4] == b.subrange(0, 8)[4]);
        }
    }
    assert(authority_start(b) == a);
    assert(b.take(p) =~= w.take(p));
    lemma_pos_same(w, b, '/', a);
    text::lemma_pos_from_unique(b, '?', p, e);
    assert(path(b) =~= path(w));
}

/// A text that lacks `#` is its own part before the fragment.
proof fn lemma_no_fragment(u: Seq<char>)
    requires
        text::lacks(u, '#'),
    ensures
        without_fragment(u) == u,
{
    text::lemma_pos_from_unique(u, '#', 0, u.len() as int);
    assert(u.take(u.len() as int) =~= u);
}

/// The key of a plain dev endpoint with a query.
proof fn lemma_key_of_dev(c: CanonicalizationView, base: Seq<char>, q: Seq<char>)
    requires
        plain_url(base),
        dev_endpoint(c, base),
        text::lacks(q, '#'),
    ensures
        key(base.push('?') + q, Some(c)) == with_query(base, kept(c, q)),
{
    let x = seq!['?'] + q;
    let u = base.push('?') + q;
    assert(u =~= base + x);
    lemma_behind_plain(base, x);
    assert(x.drop_first() =~= q);
    lemma_unwrapped_http(u);
    lemma_no_fragment(u);
}

/// What is kept is not empty, holds no `&` and, where the query has none, no `#`.
proof fn lemma_kept(c: CanonicalizationView, q: Seq<char>)
    ensures
        forall|i: int|
            0 <= i < kept(c, q).len() ==> keeps(c)(#[trigger] kept(c, q)[i]) && text::lacks(
                kept(c, q)[i],
                '&',
            ),
        text::lacks(q, '#') ==> forall|i: int|
            0 <= i < kept(c, q).len() ==> text::lacks(#[trigger] kept(c, q)[i], '#'),
{
    let parts = text::split(q, '&');
    let k = kept(c, q);
    text::lemma_split_lacks(q, '&', '#');
    assert forall|i: int| 0 <= i < k.len() implies keeps(c)(#[trigger] k[i]) && text::lacks(
        k[i],
        '&',
    ) by {
        parts.lemma_filter_pred(keeps(c), i);
        parts.lemma_filter_contains_rev(keeps(c), k[i]);
        let j = parts.index_of(k[i]);
        assert(parts[j] == k[i]);
    }
    if text::lacks(q, '#') {
        assert forall|i: int| 0 <= i < k.len() implies text::lacks(#[trigger] k[i], '#') by {
            parts.lemma_filter_contains_rev(keeps(c), k[i]);
            let j = parts.index_of(k[i]);
            assert(parts[j] == k[i]);
        }
    }
}

/// Sorting changes nothing about which parameters there are.
proof fn lemma_sorted_contents(s: Seq<Seq<char>>)
    ensures
        order::sorted_texts(s).len() == s.len(),
        forall|i: int|
            0 <= i < s.len() ==> s.contains(#[trigger] order::sorted_texts(s)[i]),
{
    broadcast use vstd::seq_lib::group_to_multiset_ensures;

    order::lemma_sort_multiset(s, order::by_text());
    let t = order::sorted_texts(s);
    assert forall|i: int| 0 <= i < s.len() implies s.contains(#[trigger] t[i]) by {
        assert(t.contains(t[i]));
        assert(t.to_multiset().count(t[i]) > 0);
    }
}

/// Filtering a sequence that has only what is kept changes nothing.
proof fn lemma_filter_all(s: Seq<Seq<char>>, keep: spec_fn(Seq<char>) -> bool)
    requires
        forall|i: int| 0 <= i < s.len() ==> keep(#[trigger] s[i]),
    ensures
        s.filter(keep) == s,
    decreases s.len(),
{
    reveal(Seq::filter);
    if s.len() > 0 {
        lemma_filter_all(s.drop_last(), keep);
        assert(keep(s[s.len() - 1]));
        assert(s.drop_last().push(s.last()) =~= s);
    }
}

/// The key of a key is the key itself.
pub proof fn law_key_idempotent(url: Seq<char>, canon: Option<CanonicalizationView>)
    ensures
        key(key(url, canon), canon) == key(url, canon),
{
    let u = unwrapped(url);
    lemma_unwrapped_twice(url);
    if http(u) {
        let w = without_fragment(u);
        lemma_fragment(u);
        lemma_unwrapped_http(w);
        lemma_no_fragment(w);
        if let Some(c) = canon {
            if dev_endpoint(c, w) {
                let base = w.take(path_end(w));
                lemma_before_query(w);
                let q = query(w);
                let k = kept(c, q);
                lemma_kept(c, q);
                if k.len() == 0 {
                    lemma_behind_plain(base, Seq::empty());
                    assert(base + Seq::<char>::empty() =~= base);
                    lemma_unwrapped_http(base);
                    lemma_no_fragment(base);
                    lemma_kept_of_nothing(c);
                } else {
                    let t = order::sorted_texts(k);
                    lemma_sorted_contents(k);
                    assert forall|i: int| 0 <= i < t.len() implies keeps(c)(#[trigger] t[i])
                        && text::lacks(t[i], '&') && text::lacks(t[i], '#') by {
                        assert(k.contains(t[i]));
                        let j = k.index_of(t[i]);
                        assert(k[j] == t[i]);
                    }
                    reveal_strlit("&");
                    assert("&"@ =~= seq!['&']);
                    let joined = text::join(t, seq!['&']);
                    text::lemma_join_lacks(t, seq!['&'], '#');
                    text::lemma_split_join(t, '&');
                    lemma_filter_all(t, keeps(c));
                    assert(kept(c, joined) == t);
                    lemma_key_of_dev(c, base, joined);
                    order::lemma_text_order();
                    order::lemma_sort_sorted(k, order::by_text());
                    order::lemma_sort_of_sorted(t, order::by_text());
                }
            }
        }
    }
}

/// Nothing is kept of an empty query.
proof fn lemma_kept_of_nothing(c: CanonicalizationView)
    ensures
        kept(c, Seq::empty()).len() == 0,
{
    reveal(Seq::filter);
    let e = Seq::<char>::empty();
    assert(text::split(e, '&') == seq![e]);
    assert(seq![e].drop_last() =~= Seq::<Seq<char>>::empty());
    assert(seq![e].drop_last().filter(keeps(c)).len() == 0);
}

/// A key is never a URL with a fragment.
pub proof fn law_key_has_no_fragment(url: Seq<char>, canon: Option<CanonicalizationView>)
    requires
        http(key(url, canon)),
    ensures
        text::lacks(key(url, canon), '#'),
{
    let u = unwrapped(url);
    if http(u) {
        let w = without_fragment(u);
        lemma_fragment(u);
        if let Some(c) = canon {
            if dev_endpoint(c, w) {
                lemma_before_query(w);
                let q = query(w);
                assert(text::lacks(q, '#'));
                lemma_kept(c, q);
                let k = kept(c, q);
                let t = order::sorted_texts(k);
                lemma_sorted_contents(k);
                assert forall|i: int| 0 <= i < t.len() implies text::lacks(
                    #[trigger] t[i],
                    '#',
                ) by {
                    assert(k.contains(t[i]));
                    let j = k.index_of(t[i]);
                    assert(k[j] == t[i]);
                }
                reveal_strlit("&");
                text::lemma_join_lacks(t, "&"@, '#');
            }
        }
    }
}

/// Two URLs that differ in their fragment have one key.
pub proof fn law_fragment_is_not_identity(
    url: Seq<char>,
    fragment: Seq<char>,
    canon: Option<CanonicalizationView>,
)
    requires
        http(url),
        text::lacks(url, '#'),
    ensures
        key(url.push('#') + fragment, canon) == key(url, canon),
{
    reveal_strlit("http://");
    reveal_strlit("https://");
    let v = url.push('#') + fragment;
    if "http://"@.is_prefix_of(url) {
        assert(v.subrange(0, 7) =~= url.subrange(0, 7));
    } else {
        assert(v.subrange(0, 8) =~= url.subrange(0, 8));
    }
    lemma_unwrapped_http(v);
    lemma_unwrapped_http(url);
    lemma_no_fragment(url);
    text::lemma_pos_from_unique(v, '#', 0, url.len() as int);
    assert(without_fragment(v) =~= url);
}

/// Unconfigured, a key is the URL up to its fragment.
pub proof fn law_unconfigured_drops_only_the_fragment(url: Seq<char>)
    requires
        http(url),
    ensures
        key(url, None) == without_fragment(url),
{
    lemma_unwrapped_http(url);
}

/// Outside the dev endpoints a query stays as it is written.
pub proof fn law_other_queries_are_identity(url: Seq<char>, c: CanonicalizationView)
    requires
        http(url),
        !dev_endpoint(c, without_fragment(url)),
    ensures
        key(url, Some(c)) == without_fragment(url),
{
    lemma_unwrapped_http(url);
}

/// The order of a dev endpoint's query parameters does not matter.
pub proof fn law_parameter_order_is_not_identity(
    c: CanonicalizationView,
    base: Seq<char>,
    q1: Seq<char>,
    q2: Seq<char>,
)
    requires
        plain_url(base),
        dev_endpoint(c, base),
        text::lacks(q1, '#'),
        text::lacks(q2, '#'),
        text::split(q1, '&').to_multiset() == text::split(q2, '&').to_multiset(),
    ensures
        key(base.push('?') + q1, Some(c)) == key(base.push('?') + q2, Some(c)),
{
    broadcast use vstd::seq_lib::group_to_multiset_ensures;

    lemma_key_of_dev(c, base, q1);
    lemma_key_of_dev(c, base, q2);
    order::lemma_filter_multiset(text::split(q1, '&'), keeps(c));
    order::lemma_filter_multiset(text::split(q2, '&'), keeps(c));
    order::lemma_sorted_texts_same(kept(c, q1), kept(c, q2));
    assert(kept(c, q1).to_multiset().len() == kept(c, q2).to_multiset().len());
}

/// A cache-buster parameter does not change the key of a dev endpoint.
pub proof fn law_cache_busters_are_not_identity(
    c: CanonicalizationView,
    base: Seq<char>,
    q: Seq<char>,
    pair: Seq<char>,
)
    requires
        plain_url(base),
        dev_endpoint(c, base),
        text::lacks(q, '#'),
        text::lacks(pair, '#'),
        text::lacks(pair, '&'),
        c.strip_params.contains(param_name(pair)),
    ensures
        key(base.push('?') + pair, Some(c)) == base,
        key(base.push('?') + (q.push('&') + pair), Some(c)) == key(base.push('?') + q, Some(c)),
{
    reveal(Seq::filter);
    lemma_key_of_dev(c, base, pair);
    text::lemma_pos_from_unique(pair, '&', 0, pair.len() as int);
    assert(text::split(pair, '&') == seq![pair]);
    assert(seq![pair].drop_last() =~= Seq::<Seq<char>>::empty());
    assert(seq![pair].drop_last().filter(keeps(c)).len() == 0);
    assert(kept(c, pair).len() == 0);

    lemma_key_of_dev(c, base, q);
    lemma_key_of_dev(c, base, q.push('&') + pair);
    text::lemma_split_push(q, '&', pair);
    let parts = text::split(q, '&');
    assert(parts.push(pair).drop_last() =~= parts);
}

/// A URL whose scheme a path join collapsed, or that stands behind `file://`, has the key of the
/// URL it means.
pub proof fn law_collapsed_and_wrapped_urls_share_a_key(
    rest: Seq<char>,
    canon: Option<CanonicalizationView>,
)
    requires
        rest.len() > 0 ==> rest[0] != '/',
    ensures
        key("http:/"@ + rest, canon) == key("http://"@ + rest, canon),
        key("https:/"@ + rest, canon) == key("https://"@ + rest, canon),
        key("file://http://"@ + rest, canon) == key("http://"@ + rest, canon),
        key("file://https://"@ + rest, canon) == key("https://"@ + rest, canon),
{
    reveal_strlit("http:/");
    reveal_strlit("https:/");
    reveal_strlit("http://");
    reveal_strlit("https://");
    reveal_strlit("file://");
    reveal_strlit("file://http:/");
    reveal_strlit("file://https:/");
    reveal_strlit("file://http://");
    reveal_strlit("file://https://");
    assert("http:/"@.push('/') =~= "http://"@);
    assert("https:/"@.push('/') =~= "https://"@);
    let a = "http://"@ + rest;
    let b = "https://"@ + rest;
    assert(a.subrange(0, 7) =~= "http://"@);
    assert(b.subrange(0, 8) =~= "https://"@);
    lemma_unwrapped_http(a);
    lemma_unwrapped_http(b);

    let a1 = "http:/"@ + rest;
    assert(a1.subrange(0, 6) =~= "http:/"@);
    assert(!"http://"@.is_prefix_of(a1)) by {
        if "http://"@.is_prefix_of(a1) {
            assert("http://"@[6] == a1.subrange(0, 7)[6]);
        }
    }
    assert(a1.skip(6) =~= rest);
    assert(repaired(a1) =~= a);
    assert(unwrapped(a1) == a) by {
        assert(a[0] == 'h');
        if "file://http:/"@.is_prefix_of(a) {
            assert("file://http:/"@[0] == a.subrange(0, 13)[0]);
        }
        if "file://https:/"@.is_prefix_of(a) {
            assert("file://https:/"@[0] == a.subrange(0, 14)[0]);
        }
    }

    let b1 = "https:/"@ + rest;
    assert(b1.subrange(0, 7) =~= "https:/"@);
    assert(!"https://"@.is_prefix_of(b1)) by {
        if "https://"@.is_prefix_of(b1) {
            assert("https://"@[7] == b1.subrange(0, 8)[7]);
        }
    }
    assert(!"http:/"@.is_prefix_of(b1)) by {
        if "http:/"@.is_prefix_of(b1) {
            assert("http:/"@[4] == b1.subrange(0, 6)[4]);
            assert("https:/"@[4] == b1.subrange(0, 7)[4]);
        }
    }
    assert(b1.skip(7) =~= rest);
    assert(repaired(b1) =~= b);
    assert(unwrapped(b1) == b) by {
        assert(b[0] == 'h');
        if "file://http:/"@.is_prefix_of(b) {
            assert("file://http:/"@[0] == b.subrange(0, 13)[0]);
        }
        if "file://https:/"@.is_prefix_of(b) {
            assert("file://https:/"@[0] == b.subrange(0, 14)[0]);
        }
    }

    let a2 = "file://http://"@ + rest;
    lemma_file_not_collapsed(a2);
    assert(a2.subrange(0, 13) =~= "file://http:/"@);
    assert(a2.skip(7) =~= a);
    lemma_repaired(a);
    let b2 = "file://https://"@ + rest;
    lemma_file_not_collapsed(b2);
    assert(b2.subrange(0, 14) =~= "file://https:/"@);
    assert(b2.skip(7) =~= b);
    lemma_repaired(b);
    assert(repaired(a) == a) by {
        if "https:/"@.is_prefix_of(a) {
            assert("https:/"@[4] == a.subrange(0, 7)[4]);
        }
    }
    assert(repaired(b) == b) by {
        if "http:/"@.is_prefix_of(b) {
            assert("http:/"@[4] == b.subrange(0, 6)[4]);
        }
    }
}

/// A text that starts with `f` has no scheme to repair.
proof fn lemma_file_not_collapsed(u: Seq<char>)
    requires
        u.len() > 0,
        u[0] == 'f',
    ensures
        repaired(u) == u,
{
    reveal_strlit("http:/");
    reveal_strlit("https:/");
    if "http:/"@.is_prefix_of(u) {
        assert("http:/"@[0] == u.subrange(0, 6)[0]);
    }
    if "https:/"@.is_prefix_of(u) {
        assert("https:/"@[0] == u.subrange(0, 7)[0]);
    }
}

/// An HTTP URL starts with `http://` or `https://`, whatever follows.
pub proof fn law_http_urls_start_with_their_scheme(s: Seq<char>)
    ensures
        http(s) <==> exists|rest: Seq<char>|
            s == #[trigger] ("http://"@ + rest) || s == "https://"@ + rest,
        forall|rest: Seq<char>| http("http://"@ + rest) && http(#[trigger] ("https://"@ + rest)),
{
    assert forall|rest: Seq<char>|
        http("http://"@ + rest) && http(#[trigger] ("https://"@ + rest)) by {
        lemma_starts("http://"@, rest);
        lemma_starts("https://"@, rest);
    }
    if "http://"@.is_prefix_of(s) {
        let rest = s.skip("http://"@.len() as int);
        assert(s =~= "http://"@ + rest);
    } else if "https://"@.is_prefix_of(s) {
        let rest = s.skip("https://"@.len() as int);
        assert(s =~= "https://"@ + rest);
        assert(("http://"@ + rest).len() >= 0);
    }
    if exists|rest: Seq<char>| s == #[trigger] ("http://"@ + rest) || s == "https://"@ + rest {
        let rest = choose|rest: Seq<char>|
            s == #[trigger] ("http://"@ + rest) || s == "https://"@ + rest;
        lemma_starts("http://"@, rest);
        lemma_starts("https://"@, rest);
    }
}

proof fn lemma_starts(p: Seq<char>, rest: Seq<char>)
    ensures
        p.is_prefix_of(p + rest),
{
    assert((p + rest).subrange(0, p.len() as int) =~= p);
}

/// A text that is neither an HTTP URL, whole or with a slash lost, nor one behind `file://`, is its own
/// key.
#[verifier::rlimit(40)]
pub proof fn law_other_texts_are_their_own_keys(url: Seq<char>, canon: Option<CanonicalizationView>)
    requires
        !"http:/"@.is_prefix_of(url),
        !"https:/"@.is_prefix_of(url),
        !"file://http:/"@.is_prefix_of(url),
        !"file://https:/"@.is_prefix_of(url),
    ensures
        key(url, canon) == url,
{
    reveal_strlit("http:/");
    reveal_strlit("https:/");
    reveal_strlit("http://");
    reveal_strlit("https://");
    if "http://"@.is_prefix_of(url) {
        assert(url.subrange(0, 6) =~= url.subrange(0, 7).subrange(0, 6));
        assert("http:/"@ =~= "http://"@.subrange(0, 6));
        assert("http:/"@ =~= url.subrange(0, 6));
    }
    if "https://"@.is_prefix_of(url) {
        assert(url.subrange(0, 7) =~= url.subrange(0, 8).subrange(0, 7));
        assert("https:/"@ =~= "https://"@.subrange(0, 7));
        assert("https:/"@ =~= url.subrange(0, 7));
    }
}

/// A URL behind `file://` has the key it has without it, also where it lost a slash.
#[verifier::rlimit(40)]
pub proof fn law_wrapped_collapsed_urls_share_a_key(
    rest: Seq<char>,
    canon: Option<CanonicalizationView>,
)
    requires
        rest.len() > 0 ==> rest[0] != '/',
    ensures
        key("file://http:/"@ + rest, canon) == key("http://"@ + rest, canon),
        key("file://https:/"@ + rest, canon) == key("https://"@ + rest, canon),
{
    law_collapsed_and_wrapped_urls_share_a_key(rest, canon);
    lemma_wrapped_key("file://http:/"@, "http:/"@, rest, canon);
    lemma_wrapped_key("file://https:/"@, "https:/"@, rest, canon);
}

/// A URL behind `file://` has the key it has without it.
#[verifier::rlimit(40)]
proof fn lemma_wrapped_key(
    wrapped: Seq<char>,
    scheme: Seq<char>,
    rest: Seq<char>,
    canon: Option<CanonicalizationView>,
)
    requires
        (wrapped == "file://http:/"@ && scheme == "http:/"@) || (wrapped == "file://https:/"@
            && scheme == "https:/"@),
    ensures
        key(wrapped + rest, canon) == key(scheme + rest, canon),
{
    assert(wrapped + rest =~= "file://"@ + (scheme + rest)) by {
        reveal_strlit("file://");
        reveal_strlit("http:/");
        reveal_strlit("https:/");
        reveal_strlit("file://http:/");
        reveal_strlit("file://https:/");
        assert(wrapped =~= "file://"@ + scheme);
    }
    lemma_starts(scheme, rest);
    lemma_starts(wrapped, rest);
    lemma_unwrapped_wrapped(scheme + rest);
}

/// A URL behind `file://` means what it means without it.
#[verifier::rlimit(40)]
proof fn lemma_unwrapped_wrapped(url: Seq<char>)
    requires
        "http:/"@.is_prefix_of(url) || "https:/"@.is_prefix_of(url),
        "file://http:/"@.is_prefix_of("file://"@ + url) || "file://https:/"@.is_prefix_of(
            "file://"@ + url,
        ),
    ensures
        unwrapped("file://"@ + url) == unwrapped(url),
{
    let w = "file://"@ + url;
    assert(w.len() > 0 && w[0] == 'f') by {
        reveal_strlit("file://");
    }
    lemma_file_not_collapsed(w);
    assert(w.skip("file://"@.len() as int) =~= url);
    lemma_unwrapped_repaired(url);
}

/// A URL that starts with a scheme that may lack a slash means its repaired self.
#[verifier::rlimit(40)]
proof fn lemma_unwrapped_repaired(url: Seq<char>)
    requires
        "http:/"@.is_prefix_of(url) || "https:/"@.is_prefix_of(url),
    ensures
        unwrapped(url) == repaired(url),
{
    lemma_repaired(url);
    let u = repaired(url);
    reveal_strlit("http://");
    reveal_strlit("https://");
    reveal_strlit("file://http:/");
    reveal_strlit("file://https:/");
    assert(u[0] == 'h') by {
        if "http://"@.is_prefix_of(u) {
            assert("http://"@[0] == u[0]);
        } else {
            assert("https://"@[0] == u[0]);
        }
    }
    if "file://http:/"@.is_prefix_of(u) {
        assert("file://http:/"@[0] == u[0]);
    }
    if "file://https:/"@.is_prefix_of(u) {
        assert("file://https:/"@[0] == u[0]);
    }
}

/// A URL in parts: a scheme, a host without slash, and a path from a slash on without question mark.
#[verifier::rlimit(40)]
proof fn lemma_url_in_parts(scheme: Seq<char>, host: Seq<char>, p: Seq<char>)
    requires
        scheme == "http://"@ || scheme == "https://"@,
        !host.contains('/'),
        !host.contains('#'),
        p.len() > 0,
        p[0] == '/',
        !p.contains('?'),
        !p.contains('#'),
    ensures
        plain_url(scheme + host + p),
        path(scheme + host + p) == p,
        path_start(scheme + host + p) == scheme.len() + host.len(),
{
    reveal_strlit("http://");
    reveal_strlit("https://");
    let u = scheme + host + p;
    let n = (scheme.len() + host.len()) as int;
    assert(u =~= scheme + (host + p));
    lemma_starts(scheme, host + p);
    assert(http(u));
    assert forall|i: int| 0 <= i < host.len() implies #[trigger] host[i] != '/' && host[i] != '#' by {
        assert(host.contains(host[i]));
    }
    assert forall|i: int| 0 <= i < p.len() implies #[trigger] p[i] != '?' && p[i] != '#' by {
        assert(p.contains(p[i]));
    }
    if scheme == "https://"@ && "http://"@.is_prefix_of(u) {
        assert("http://"@[4] == u[4]);
        assert(u[4] == scheme[4]);
    }
    assert(authority_start(u) == scheme.len());
    assert forall|j: int| scheme.len() <= j < n implies u[j] != '/' by {
        assert(u[j] == host[j - scheme.len()]);
    }
    assert(u[n] == p[0]);
    text::lemma_pos_from_unique(u, '/', scheme.len() as int, n);
    assert forall|j: int| n <= j < u.len() implies u[j] != '?' by {
        assert(u[j] == p[j - n]);
    }
    text::lemma_pos_from_unique(u, '?', n, u.len() as int);
    assert(path(u) =~= p);
    assert(text::lacks(u, '#')) by {
        assert forall|i: int| 0 <= i < u.len() implies u[i] != '#' by {
            if i < scheme.len() {
                assert(u[i] == scheme[i]);
            } else if i < n {
                assert(u[i] == host[i - scheme.len()]);
            } else {
                assert(u[i] == p[i - n]);
            }
        }
    }
}

/// Whether a parameter is kept, by its name: what stands before its first `=`, or all of it.
proof fn lemma_keeps_by_name(c: CanonicalizationView, pair: Seq<char>)
    ensures
        keeps(c)(pair) <==> pair.len() > 0 && forall|n: int|
            0 <= n <= pair.len() && (n < pair.len() ==> pair[n] == '=') && !pair.take(n).contains('=')
                ==> !c.strip_params.contains(#[trigger] pair.take(n)),
{
    text::lemma_pos_from(pair, '=', 0);
    let e = text::pos_from(pair, '=', 0);
    assert(!pair.take(e).contains('='));
    assert forall|n: int|
        0 <= n <= pair.len() && (n < pair.len() ==> pair[n] == '=') && !(
        #[trigger] pair.take(n)).contains('=') implies n == e by {
        if e < n {
            assert(pair.take(n)[e] == '=');
        }
    }
    assert(param_name(pair) == pair.take(e));
}

/// The key of a dev endpoint: its URL, and of its query the parameters that are neither empty nor
/// named, before their first `=` or as a whole, among those to strip; they come in code point order.
/// Every other URL keeps its query as it is written. A dev endpoint is a URL whose path starts with a
/// dev prefix and contains none of the patterns whose query is to be preserved.
#[verifier::rlimit(40)]
pub proof fn law_dev_endpoints_keep_what_is_not_stripped(
    c: CanonicalizationView,
    scheme: Seq<char>,
    host: Seq<char>,
    path: Seq<char>,
    params: Seq<Seq<char>>,
)
    requires
        scheme == "http://"@ || scheme == "https://"@,
        !host.contains('/'),
        !host.contains('#'),
        path.len() > 0,
        path[0] == '/',
        !path.contains('?'),
        !path.contains('#'),
        params.len() > 0,
        forall|i: int|
            0 <= i < params.len() ==> !(#[trigger] params[i]).contains('&') && !params[i].contains(
                '#',
            ),
    ensures
        ({
            let base = scheme + host + path;
            let url = base + seq!['?'] + text::join(params, seq!['&']);
            let dev = (exists|i: int|
                0 <= i < c.dev_path_prefixes.len() && (#[trigger] c.dev_path_prefixes[i]).len() > 0
                    && c.dev_path_prefixes[i].is_prefix_of(path)) && !(exists|i: int, n: int|
                0 <= i < c.preserve_query_for.len() && c.preserve_query_for[i].len() > 0 && 0 <= n
                    <= path.len() - c.preserve_query_for[i].len() && #[trigger] path.subrange(
                    n,
                    n + c.preserve_query_for[i].len(),
                ) == c.preserve_query_for[i]);
            let kept = params.filter(
                |pair: Seq<char>|
                    pair.len() > 0 && forall|n: int|
                        0 <= n <= pair.len() && (n < pair.len() ==> pair[n] == '=') && !pair.take(
                            n,
                        ).contains('=') ==> !c.strip_params.contains(#[trigger] pair.take(n)),
            );
            &&& key(base, Some(c)) == base
            &&& !dev ==> key(url, Some(c)) == url
            &&& dev && kept.len() == 0 ==> key(url, Some(c)) == base
            &&& dev && kept.len() > 0 ==> exists|sorted: Seq<Seq<char>>| #[trigger]
                sorted.to_multiset() == kept.to_multiset() && (forall|i: int, j: int|
                    0 <= i < j < sorted.len() ==> order::text_le(
                        #[trigger] sorted[i],
                        #[trigger] sorted[j],
                    )) && key(url, Some(c)) == base + seq!['?'] + text::join(sorted, seq!['&'])
        }),
{
    let base = scheme + host + path;
    let q = text::join(params, seq!['&']);
    let url = base + seq!['?'] + q;
    let keep = |pair: Seq<char>|
        pair.len() > 0 && forall|n: int|
            0 <= n <= pair.len() && (n < pair.len() ==> pair[n] == '=') && !pair.take(n).contains('=')
                ==> !c.strip_params.contains(#[trigger] pair.take(n));
    assert forall|pair: Seq<char>| keep(pair) == #[trigger] keeps(c)(pair) by {
        lemma_keeps_by_name(c, pair);
    }
    assert(keep =~= keeps(c));
    lemma_url_in_parts(scheme, host, path);
    assert forall|i: int| 0 <= i < params.len() implies text::lacks(#[trigger] params[i], '&')
        && text::lacks(params[i], '#') by {
        assert forall|j: int| 0 <= j < params[i].len() implies params[i][j] != '&' && params[i][j]
            != '#' by {
            assert(params[i].contains(params[i][j]));
        }
    }
    text::lemma_split_join(params, '&');
    text::lemma_join_lacks(params, seq!['&'], '#');
    assert(text::lacks(q, '#'));
    assert(url =~= base.push('?') + q);
    lemma_unwrapped_http(base);
    lemma_no_fragment(base);
    lemma_behind_plain(base, Seq::empty());
    assert(base + Seq::empty() =~= base);
    lemma_kept_of_nothing(c);
    assert(key(base, Some(c)) == base) by {
        assert(base.take(base.len() as int) =~= base);
    }
    let dev = (exists|i: int|
        0 <= i < c.dev_path_prefixes.len() && (#[trigger] c.dev_path_prefixes[i]).len() > 0
            && c.dev_path_prefixes[i].is_prefix_of(path)) && !(exists|i: int, n: int|
        0 <= i < c.preserve_query_for.len() && c.preserve_query_for[i].len() > 0 && 0 <= n
            <= path.len() - c.preserve_query_for[i].len() && #[trigger] path.subrange(
            n,
            n + c.preserve_query_for[i].len(),
        ) == c.preserve_query_for[i]);
    lemma_preserved(c, path);
    assert(dev == dev_endpoint(c, base));
    if dev {
        lemma_key_of_dev(c, base, q);
        let k = params.filter(keep);
        assert(kept(c, q) == k);
        if k.len() > 0 {
            let sorted = order::sorted_texts(k);
            order::law_sorted_texts_are_the_texts_in_order(k);
            reveal_strlit("&");
            assert("&"@ =~= seq!['&']);
            assert(base.push('?') =~= base + seq!['?']);
            assert(sorted.to_multiset() == k.to_multiset());
        }
    } else {
        lemma_behind_plain(base, seq!['?'] + q);
        assert(base + (seq!['?'] + q) =~= url);
        lemma_unwrapped_http(url);
        assert(text::lacks(url, '#')) by {
            assert forall|i: int| 0 <= i < url.len() implies url[i] != '#' by {
                if i > base.len() {
                    assert(url[i] == q[i - base.len() - 1]);
                } else if i < base.len() {
                    assert(url[i] == base[i]);
                }
            }
        }
        lemma_no_fragment(url);
    }
}

/// Where a pattern stands in the path.
proof fn lemma_preserved(c: CanonicalizationView, path: Seq<char>)
    ensures
        preserved(c, path) <==> exists|i: int, n: int|
            0 <= i < c.preserve_query_for.len() && c.preserve_query_for[i].len() > 0 && 0 <= n
                <= path.len() - c.preserve_query_for[i].len() && #[trigger] path.subrange(
                n,
                n + c.preserve_query_for[i].len(),
            ) == c.preserve_query_for[i],
{
    if preserved(c, path) {
        let i = choose|i: int|
            0 <= i < c.preserve_query_for.len() && (#[trigger] c.preserve_query_for[i]).len() > 0
                && text::contains_text(path, c.preserve_query_for[i]);
        let n = choose|n: int| #[trigger] text::occurs_at(path, c.preserve_query_for[i], n);
        assert(path.subrange(n, n + c.preserve_query_for[i].len()) == c.preserve_query_for[i]);
    }
    if exists|i: int, n: int|
        0 <= i < c.preserve_query_for.len() && c.preserve_query_for[i].len() > 0 && 0 <= n
            <= path.len() - c.preserve_query_for[i].len() && #[trigger] path.subrange(
            n,
            n + c.preserve_query_for[i].len(),
        ) == c.preserve_query_for[i] {
        let (i, n) = choose|i: int, n: int|
            0 <= i < c.preserve_query_for.len() && c.preserve_query_for[i].len() > 0 && 0 <= n
                <= path.len() - c.preserve_query_for[i].len() && #[trigger] path.subrange(
                n,
                n + c.preserve_query_for[i].len(),
            ) == c.preserve_query_for[i];
        assert(text::occurs_at(path, c.preserve_query_for[i], n));
        assert(text::contains_text(path, c.preserve_query_for[i]));
    }
}

/// A dev endpoint's one parameter, with or without a value, stays where its name is not to be
/// stripped.
#[verifier::rlimit(40)]
pub proof fn law_other_parameters_are_identity(
    c: CanonicalizationView,
    scheme: Seq<char>,
    host: Seq<char>,
    path: Seq<char>,
    pair: Seq<char>,
)
    requires
        scheme == "http://"@ || scheme == "https://"@,
        !host.contains('/'),
        !host.contains('#'),
        path.len() > 0,
        path[0] == '/',
        !path.contains('?'),
        !path.contains('#'),
        pair.len() > 0,
        !pair.contains('&'),
        !pair.contains('#'),
        forall|n: int|
            0 <= n <= pair.len() && (n < pair.len() ==> pair[n] == '=') && !pair.take(n).contains('=')
                ==> !c.strip_params.contains(#[trigger] pair.take(n)),
    ensures
        key(scheme + host + path + seq!['?'] + pair, Some(c)) == scheme + host + path + seq!['?']
            + pair,
{
    broadcast use vstd::seq_lib::group_to_multiset_ensures;

    reveal(Seq::filter);
    let params = seq![pair];
    assert(text::join(params, seq!['&']) =~= pair);
    law_dev_endpoints_keep_what_is_not_stripped(c, scheme, host, path, params);
    let keep = |pair: Seq<char>|
        pair.len() > 0 && forall|n: int|
            0 <= n <= pair.len() && (n < pair.len() ==> pair[n] == '=') && !pair.take(n).contains('=')
                ==> !c.strip_params.contains(#[trigger] pair.take(n));
    assert(keep(pair));
    assert(params.filter(keep) =~= params) by {
        assert(params.drop_last() =~= Seq::empty());
        assert(params.last() == pair);
    }
    let base = scheme + host + path;
    let url = base + seq!['?'] + pair;
    if key(url, Some(c)) != url {
        let sorted = choose|sorted: Seq<Seq<char>>| #[trigger]
            sorted.to_multiset() == params.to_multiset() && (forall|i: int, j: int|
                0 <= i < j < sorted.len() ==> order::text_le(
                    #[trigger] sorted[i],
                    #[trigger] sorted[j],
                )) && key(url, Some(c)) == base + seq!['?'] + text::join(sorted, seq!['&']);
        assert(sorted.len() == 1) by {
            assert(sorted.to_multiset().len() == params.to_multiset().len());
        }
        assert(params.to_multiset().contains(sorted[0])) by {
            assert(sorted.contains(sorted[0]));
        }
        assert(params.contains(sorted[0]));
        assert(sorted[0] == pair);
        assert(text::join(sorted, seq!['&']) =~= pair);
    }
}

/// Two queries of a dev endpoint have one key exactly where they have the same parameters that are
/// neither empty nor to be stripped, as often each.
#[verifier::rlimit(40)]
pub proof fn law_keys_tell_parameters_apart(
    c: CanonicalizationView,
    scheme: Seq<char>,
    host: Seq<char>,
    path: Seq<char>,
    a: Seq<Seq<char>>,
    b: Seq<Seq<char>>,
)
    requires
        scheme == "http://"@ || scheme == "https://"@,
        !host.contains('/'),
        !host.contains('#'),
        path.len() > 0,
        path[0] == '/',
        !path.contains('?'),
        !path.contains('#'),
        exists|i: int|
            0 <= i < c.dev_path_prefixes.len() && (#[trigger] c.dev_path_prefixes[i]).len() > 0
                && c.dev_path_prefixes[i].is_prefix_of(path),
        !exists|i: int, n: int|
            0 <= i < c.preserve_query_for.len() && c.preserve_query_for[i].len() > 0 && 0 <= n
                <= path.len() - c.preserve_query_for[i].len() && #[trigger] path.subrange(
                n,
                n + c.preserve_query_for[i].len(),
            ) == c.preserve_query_for[i],
        a.len() > 0,
        b.len() > 0,
        forall|i: int|
            0 <= i < a.len() ==> !(#[trigger] a[i]).contains('&') && !a[i].contains('#'),
        forall|i: int|
            0 <= i < b.len() ==> !(#[trigger] b[i]).contains('&') && !b[i].contains('#'),
    ensures
        ({
            let base = scheme + host + path + seq!['?'];
            let keep = |pair: Seq<char>|
                pair.len() > 0 && forall|n: int|
                    0 <= n <= pair.len() && (n < pair.len() ==> pair[n] == '=') && !pair.take(
                        n,
                    ).contains('=') ==> !c.strip_params.contains(#[trigger] pair.take(n));
            key(base + text::join(a, seq!['&']), Some(c)) == key(
                base + text::join(b, seq!['&']),
                Some(c),
            ) <==> a.filter(keep).to_multiset() == b.filter(keep).to_multiset()
        }),
{
    broadcast use vstd::seq_lib::group_to_multiset_ensures;

    let base = scheme + host + path;
    let keep = |pair: Seq<char>|
        pair.len() > 0 && forall|n: int|
            0 <= n <= pair.len() && (n < pair.len() ==> pair[n] == '=') && !pair.take(n).contains('=')
                ==> !c.strip_params.contains(#[trigger] pair.take(n));
    assert forall|pair: Seq<char>| keep(pair) == #[trigger] keeps(c)(pair) by {
        lemma_keeps_by_name(c, pair);
    }
    assert(keep =~= keeps(c));
    lemma_url_in_parts(scheme, host, path);
    lemma_preserved(c, path);
    let (ka, kb) = (lemma_key_of_params(c, base, a), lemma_key_of_params(c, base, b));
    assert(base.push('?') =~= base + seq!['?']);
    let (ua, ub) = (base + seq!['?'] + text::join(a, seq!['&']), base + seq!['?'] + text::join(b, seq!['&']));
    if ka.to_multiset() == kb.to_multiset() {
        order::lemma_sorted_texts_same(ka, kb);
        assert(ka.len() == kb.len()) by {
            assert(ka.to_multiset().len() == ka.len());
            assert(kb.to_multiset().len() == kb.len());
        }
    }
    if key(ua, Some(c)) == key(ub, Some(c)) {
        let (sa, sb) = (order::sorted_texts(ka), order::sorted_texts(kb));
        order::lemma_sort_multiset(ka, order::by_text());
        order::lemma_sort_multiset(kb, order::by_text());
        if ka.len() > 0 && kb.len() > 0 {
            let (ja, jb) = (text::join(sa, seq!['&']), text::join(sb, seq!['&']));
            assert((base.push('?') + ja).skip((base.len() + 1) as int) =~= ja);
            assert((base.push('?') + jb).skip((base.len() + 1) as int) =~= jb);
            lemma_sorted_contents(ka);
            lemma_sorted_contents(kb);
            assert forall|i: int| 0 <= i < sa.len() implies text::lacks(#[trigger] sa[i], '&') by {
                assert(ka.contains(sa[i]));
                assert(text::lacks(ka[ka.index_of(sa[i])], '&'));
            }
            assert forall|i: int| 0 <= i < sb.len() implies text::lacks(#[trigger] sb[i], '&') by {
                assert(kb.contains(sb[i]));
                assert(text::lacks(kb[kb.index_of(sb[i])], '&'));
            }
            text::lemma_split_join(sa, '&');
            text::lemma_split_join(sb, '&');
            assert(sa == sb);
        } else {
            assert(ka.len() == 0 && kb.len() == 0) by {
                assert(key(ua, Some(c)).len() == key(ub, Some(c)).len());
            }
            assert(ka =~= kb);
        }
    }
}

/// The parameters of a dev endpoint that are kept, and its key by them.
proof fn lemma_key_of_params(
    c: CanonicalizationView,
    base: Seq<char>,
    params: Seq<Seq<char>>,
) -> (k: Seq<Seq<char>>)
    requires
        plain_url(base),
        dev_endpoint(c, base),
        params.len() > 0,
        forall|i: int|
            0 <= i < params.len() ==> !(#[trigger] params[i]).contains('&') && !params[i].contains(
                '#',
            ),
    ensures
        k == params.filter(keeps(c)),
        forall|i: int| 0 <= i < k.len() ==> text::lacks(#[trigger] k[i], '&'),
        key(base + seq!['?'] + text::join(params, seq!['&']), Some(c)) == if k.len() == 0 {
            base
        } else {
            base.push('?') + text::join(order::sorted_texts(k), seq!['&'])
        },
{
    let q = text::join(params, seq!['&']);
    assert forall|i: int| 0 <= i < params.len() implies text::lacks(#[trigger] params[i], '&')
        && text::lacks(params[i], '#') by {
        assert forall|j: int| 0 <= j < params[i].len() implies params[i][j] != '&' && params[i][j]
            != '#' by {
            assert(params[i].contains(params[i][j]));
        }
    }
    text::lemma_split_join(params, '&');
    text::lemma_join_lacks(params, seq!['&'], '#');
    lemma_key_of_dev(c, base, q);
    lemma_kept(c, q);
    assert(base + seq!['?'] + q =~= base.push('?') + q);
    reveal_strlit("&");
    assert("&"@ =~= seq!['&']);
    kept(c, q)
}

/// Without a path a URL keeps its query, and in every URL only the fragment is dropped where nothing is
/// configured.
#[verifier::rlimit(40)]
pub proof fn law_urls_without_path_or_configuration_lose_only_the_fragment(
    scheme: Seq<char>,
    rest: Seq<char>,
    fragment: Seq<char>,
    canon: Option<CanonicalizationView>,
)
    requires
        scheme == "http://"@ || scheme == "https://"@,
        !rest.contains('#'),
        canon is None || !rest.contains('/'),
    ensures
        key(scheme + rest, canon) == scheme + rest,
        key(scheme + rest + seq!['#'] + fragment, canon) == scheme + rest,
{
    reveal_strlit("http://");
    reveal_strlit("https://");
    let u = scheme + rest;
    lemma_starts(scheme, rest);
    assert(http(u));
    assert forall|i: int| 0 <= i < rest.len() implies #[trigger] rest[i] != '#' && (canon is Some
        ==> rest[i] != '/') by {
        assert(rest.contains(rest[i]));
    }
    assert(text::lacks(u, '#')) by {
        assert forall|i: int| 0 <= i < u.len() implies u[i] != '#' by {
            if i < scheme.len() {
                assert(u[i] == scheme[i]);
            } else {
                assert(u[i] == rest[i - scheme.len()]);
            }
        }
    }
    lemma_unwrapped_http(u);
    lemma_no_fragment(u);
    law_fragment_is_not_identity(u, fragment, canon);
    assert(u.push('#') + fragment =~= u + seq!['#'] + fragment);
    if let Some(c) = canon {
        if scheme == "https://"@ && "http://"@.is_prefix_of(u) {
            assert("http://"@[4] == u[4]);
            assert(u[4] == scheme[4]);
        }
        assert(authority_start(u) == scheme.len());
        assert forall|j: int| scheme.len() <= j < u.len() implies u[j] != '/' by {
            assert(u[j] == rest[j - scheme.len()]);
        }
        text::lemma_pos_from_unique(u, '/', scheme.len() as int, u.len() as int);
    }
}

/// The key that is computed for a dev endpoint's one parameter keeps it where its name, the part
/// before the first `=` or all of it, is not among the names to strip.
#[verifier::rlimit(40)]
pub proof fn law_computed_keys_keep_other_parameters(
    vocabulary: &LoaderVocabulary,
    url: &str,
    scheme: Seq<char>,
    host: Seq<char>,
    path: Seq<char>,
    pair: Seq<char>,
    r: String,
)
    requires
        call_ensures(canonicalize_http_url_key, (vocabulary, url), r),
        url@ == scheme + host + path + seq!['?'] + pair,
        scheme == "http://"@ || scheme == "https://"@,
        !host.contains('/'),
        !host.contains('#'),
        path.len() > 0,
        path[0] == '/',
        !path.contains('?'),
        !path.contains('#'),
        pair.len() > 0,
        !pair.contains('&'),
        !pair.contains('#'),
        vocabulary.canonicalization matches Some(c) ==> forall|n: int, i: int|
            0 <= n <= pair.len() && (n < pair.len() ==> pair[n] == '=') && !pair.take(n).contains('=')
                && 0 <= i < c.strip_params@.len() ==> (#[trigger] c.strip_params@[i])@
                != #[trigger] pair.take(n),
    ensures
        r@ == url@,
{
    if let Some(c) = vocabulary.canonicalization {
        let strip = c@.strip_params;
        assert forall|n: int|
            0 <= n <= pair.len() && (n < pair.len() ==> pair[n] == '=') && !pair.take(n).contains('=')
            implies !strip.contains(#[trigger] pair.take(n)) by {
            if strip.contains(pair.take(n)) {
                let i = strip.index_of(pair.take(n));
                assert(c.strip_params@[i]@ == strip[i]);
            }
        }
        law_other_parameters_are_identity(c@, scheme, host, path, pair);
    } else {
        let rest = host + path + seq!['?'] + pair;
        assert(scheme + rest =~= url@);
        assert(!rest.contains('#')) by {
            if rest.contains('#') {
                let i = rest.index_of('#');
                if i < host.len() {
                    assert(host[i] == rest[i]);
                    assert(host.contains('#'));
                } else if i < host.len() + path.len() {
                    assert(path[i - host.len()] == rest[i]);
                    assert(path.contains('#'));
                } else if i > host.len() + path.len() {
                    assert(pair[i - host.len() - path.len() - 1] == rest[i]);
                    assert(pair.contains('#'));
                }
            }
        }
        law_urls_without_path_or_configuration_lose_only_the_fragment(
            scheme,
            rest,
            Seq::empty(),
            None,
        );
    }
}

/// A slash that a path join took from a scheme comes back, and no other text changes.
#[verifier::rlimit(40)]
pub proof fn law_collapsed_schemes_are_repaired(url: &str, r: String, rest: Seq<char>)
    requires
        call_ensures(repair_collapsed_scheme, (url,), r),
    ensures
        url@ == "http:/"@ + rest && !seq!['/'].is_prefix_of(rest) ==> r@ == "http://"@ + rest,
        url@ == "https:/"@ + rest && !seq!['/'].is_prefix_of(rest) ==> r@ == "https://"@ + rest,
        "http://"@.is_prefix_of(url@) || "https://"@.is_prefix_of(url@) || !(
        "http:/"@.is_prefix_of(url@) || "https:/"@.is_prefix_of(url@)) ==> r@ == url@,
{
    if url@ == "http:/"@ + rest && !seq!['/'].is_prefix_of(rest) {
        lemma_repaired_scheme("http:/"@, rest);
        reveal_strlit("http:/");
        reveal_strlit("http://");
        assert("http:/"@.push('/') =~= "http://"@);
    }
    if url@ == "https:/"@ + rest && !seq!['/'].is_prefix_of(rest) {
        lemma_repaired_scheme("https:/"@, rest);
        reveal_strlit("https:/");
        reveal_strlit("http:/");
        reveal_strlit("https://");
        assert("https:/"@.push('/') =~= "https://"@);
        if "http:/"@.is_prefix_of(url@) {
            assert("http:/"@[4] == url@[4]);
            assert(url@[4] == "https:/"@[4]);
        }
    }
    if "http://"@.is_prefix_of(url@) || "https://"@.is_prefix_of(url@) {
        reveal_strlit("http:/");
        reveal_strlit("https:/");
        reveal_strlit("http://");
        reveal_strlit("https://");
        assert("http:/"@.push('/') =~= "http://"@);
        assert("https:/"@.push('/') =~= "https://"@);
        if "https://"@.is_prefix_of(url@) && "http:/"@.is_prefix_of(url@) {
            assert("http:/"@[4] == url@[4]);
            assert("https://"@[4] == url@[4]);
        }
        if "http://"@.is_prefix_of(url@) && "https:/"@.is_prefix_of(url@) {
            assert("https:/"@[4] == url@[4]);
            assert("http://"@[4] == url@[4]);
        }
    }
}

/// A scheme with one slash before a text that starts with none is collapsed.
proof fn lemma_repaired_scheme(scheme: Seq<char>, rest: Seq<char>)
    requires
        !seq!['/'].is_prefix_of(rest),
    ensures
        collapsed(scheme + rest, scheme),
        (scheme + rest).skip(scheme.len() as int) == rest,
{
    let u = scheme + rest;
    lemma_starts(scheme, rest);
    assert(u.skip(scheme.len() as int) =~= rest);
    if scheme.push('/').is_prefix_of(u) {
        assert(scheme.push('/')[scheme.len() as int] == u[scheme.len() as int]);
        assert(rest[0] == '/');
        assert(seq!['/'] =~= rest.subrange(0, 1));
    }
}

/// A text is taken for an HTTP URL exactly where it starts with one of the two schemes.
pub proof fn law_http_urls_are_recognized(s: &str, r: bool)
    requires
        call_ensures(is_http, (s,), r),
    ensures
        r <==> "http://"@.is_prefix_of(s@) || "https://"@.is_prefix_of(s@),
{
}

/// A URL behind `file://` has the key it has without it, whatever follows its scheme.
#[verifier::rlimit(40)]
pub proof fn law_wrapped_urls_share_a_key(rest: Seq<char>, canon: Option<CanonicalizationView>)
    ensures
        key("file://http:/"@ + rest, canon) == key("http:/"@ + rest, canon),
        key("file://https:/"@ + rest, canon) == key("https:/"@ + rest, canon),
{
    lemma_wrapped_key("file://http:/"@, "http:/"@, rest, canon);
    lemma_wrapped_key("file://https:/"@, "https:/"@, rest, canon);
}

/// The key that is computed for a URL is that of the vocabulary's canonicalization: two spellings of a
/// dev endpoint's query have one key exactly where they have the same parameters left.
#[verifier::rlimit(40)]
pub proof fn law_computed_keys_tell_parameters_apart(
    vocabulary: &LoaderVocabulary,
    x: &str,
    y: &str,
    c: Canonicalization,
    scheme: Seq<char>,
    host: Seq<char>,
    path: Seq<char>,
    a: Seq<Seq<char>>,
    b: Seq<Seq<char>>,
    rx: String,
    ry: String,
)
    requires
        call_ensures(canonicalize_http_url_key, (vocabulary, x), rx),
        call_ensures(canonicalize_http_url_key, (vocabulary, y), ry),
        vocabulary.canonicalization == Some(c),
        x@ == scheme + host + path + seq!['?'] + text::join(a, seq!['&']),
        y@ == scheme + host + path + seq!['?'] + text::join(b, seq!['&']),
        scheme == "http://"@ || scheme == "https://"@,
        !host.contains('/'),
        !host.contains('#'),
        path.len() > 0,
        path[0] == '/',
        !path.contains('?'),
        !path.contains('#'),
        exists|i: int|
            0 <= i < c@.dev_path_prefixes.len() && (#[trigger] c@.dev_path_prefixes[i]).len() > 0
                && c@.dev_path_prefixes[i].is_prefix_of(path),
        !exists|i: int, n: int|
            0 <= i < c@.preserve_query_for.len() && c@.preserve_query_for[i].len() > 0 && 0 <= n
                <= path.len() - c@.preserve_query_for[i].len() && #[trigger] path.subrange(
                n,
                n + c@.preserve_query_for[i].len(),
            ) == c@.preserve_query_for[i],
        a.len() > 0,
        b.len() > 0,
        forall|i: int|
            0 <= i < a.len() ==> !(#[trigger] a[i]).contains('&') && !a[i].contains('#'),
        forall|i: int|
            0 <= i < b.len() ==> !(#[trigger] b[i]).contains('&') && !b[i].contains('#'),
    ensures
        ({
            let keep = |pair: Seq<char>|
                pair.len() > 0 && forall|n: int|
                    0 <= n <= pair.len() && (n < pair.len() ==> pair[n] == '=') && !pair.take(
                        n,
                    ).contains('=') ==> !c@.strip_params.contains(#[trigger] pair.take(n));
            rx@ == ry@ <==> a.filter(keep).to_multiset() == b.filter(keep).to_multiset()
        }),
{
    law_keys_tell_parameters_apart(c@, scheme, host, path, a, b);
}

} // verus!
