//! `ns:module`: which registry keys an invalidation is about, and which modules are served ones.

use crate::loader::canonical;
use crate::loader::fetch;
use crate::loader::fetch::Busts;
use crate::order;
use crate::text;
use vstd::prelude::*;

verus! {

/// The complaint about an element that is no string.
pub open spec fn not_a_string(i: int) -> Seq<char> {
    "invalidateModules: urls["@ + text::decimal(i as nat) + "] must be a string"@
}

/// The distinct keys that are not empty, in order of their first occurrence.
pub open spec fn distinct_keys(keys: Seq<Seq<char>>) -> Seq<Seq<char>>
    decreases keys.len(),
{
    if keys.len() == 0 {
        Seq::empty()
    } else {
        let before = distinct_keys(keys.drop_last());
        if keys.last().len() == 0 || before.contains(keys.last()) {
            before
        } else {
            before.push(keys.last())
        }
    }
}

/// The keys to invalidate for a list of URLs, given the registry key of each element that is a
/// string, or the complaint about the first element that is none.
pub fn invalidation_keys(urls: &Vec<Option<String>>) -> (r: Result<Vec<String>, String>)
    ensures
        match r {
            Ok(keys) => (forall|i: int| 0 <= i < urls@.len() ==> (#[trigger] urls@[i]) is Some)
                && text::texts(keys@) == distinct_keys(
                Seq::new(urls@.len(), |i: int| urls@[i]->Some_0@),
            ),
            Err(e) => exists|i: int|
                0 <= i < urls@.len() && (#[trigger] urls@[i]) is None && e@ == not_a_string(i)
                    && forall|j: int| 0 <= j < i ==> (#[trigger] urls@[j]) is Some,
        },
{
    let ghost all = Seq::new(urls@.len(), |i: int| urls@[i]->Some_0@);
    let mut keys: Vec<String> = Vec::new();
    assert(text::texts(keys@) =~= distinct_keys(all.take(0)));
    for i in 0..urls.len()
        invariant
            all == Seq::new(urls@.len(), |i: int| urls@[i]->Some_0@),
            forall|j: int| 0 <= j < i ==> (#[trigger] urls@[j]) is Some,
            text::texts(keys@) == distinct_keys(all.take(i as int)),
    {
        match &urls[i] {
            None => {
                let e = text::concat3(
                    "invalidateModules: urls[",
                    text::decimal_text(i as u64).as_str(),
                    "] must be a string",
                );
                assert(urls@[i as int] is None && e@ == not_a_string(i as int));
                return Err(e);
            },
            Some(key) => {
                assert(all.take(i + 1).drop_last() =~= all.take(i as int));
                assert(all[i as int] == key@);
                if !text::is_blank(key.as_str()) && !holds(&keys, key.as_str()) {
                    let ghost before = keys@;
                    keys.push(key.clone());
                    assert(text::texts(keys@) =~= text::texts(before).push(key@));
                }
            },
        }
    }
    assert(all.take(all.len() as int) =~= all);
    Ok(keys)
}

/// Whether `key` is among the keys.
fn holds(keys: &Vec<String>, key: &str) -> (r: bool)
    ensures
        r == text::texts(keys@).contains(key@),
{
    let ghost all = text::texts(keys@);
    for i in 0..keys.len()
        invariant
            all == text::texts(keys@),
            forall|j: int| 0 <= j < i ==> #[trigger] all[j] != key@,
    {
        if text::same_text(keys[i].as_str(), key) {
            assert(all[i as int] == key@);
            return true;
        }
        assert(all[i as int] != key@);
    }
    false
}

/// How many of the evictions found a module.
pub open spec fn evictions(found: Seq<bool>) -> nat
    decreases found.len(),
{
    if found.len() == 0 {
        0
    } else {
        evictions(found.drop_last()) + if found.last() {
            1nat
        } else {
            0nat
        }
    }
}

/// How many modules were removed, given for each key whether one was registered.
pub fn removed_count(found: &Vec<bool>) -> (r: usize)
    ensures
        r == evictions(found@),
        r <= found@.len(),
{
    let mut n: usize = 0;
    for i in 0..found.len()
        invariant
            n == evictions(found@.take(i as int)),
            n <= i,
    {
        assert(found@.take(i + 1).drop_last() =~= found@.take(i as int));
        if found[i] {
            n = n + 1;
        }
    }
    assert(found@.take(found@.len() as int) =~= found@);
    n
}

/// The HTTP URLs among keys.
pub open spec fn http_keys() -> spec_fn(Seq<char>) -> bool {
    |k: Seq<char>| canonical::http(k)
}

/// Marks the HTTP URLs among dropped registry keys, so that the next fetch of each carries a nonce.
pub fn bust_dropped_keys(busts: &mut Busts, keys: &Vec<String>)
    ensures
        final(busts).marks@ == old(busts).marks@.union(
            text::texts(keys@).filter(http_keys()).to_set(),
        ),
        final(busts).nonce == old(busts).nonce,
        final(busts).process == old(busts).process,
{
    let kept = http_among(keys);
    fetch::mark_keys_for_cache_bust(busts, &kept);
}

/// The HTTP URLs among keys, in order.
fn http_among(keys: &Vec<String>) -> (r: Vec<String>)
    ensures
        text::texts(r@) == text::texts(keys@).filter(http_keys()),
{
    let ghost all = text::texts(keys@);
    let mut out: Vec<String> = Vec::new();
    proof {
        reveal(Seq::filter);
        assert(text::texts(out@) =~= all.take(0).filter(http_keys()));
    }
    for i in 0..keys.len()
        invariant
            all == text::texts(keys@),
            text::texts(out@) == all.take(i as int).filter(http_keys()),
    {
        proof {
            reveal(Seq::filter);
            assert(all.take(i + 1).drop_last() =~= all.take(i as int));
        }
        if canonical::is_http(keys[i].as_str()) {
            let ghost before = out@;
            out.push(keys[i].clone());
            assert(text::texts(out@) =~= text::texts(before).push(all[i as int]));
        }
    }
    assert(all.take(all.len() as int) =~= all);
    out
}

/// Whether a registry key is a URL.
pub open spec fn url_keys() -> spec_fn(Seq<char>) -> bool {
    |k: Seq<char>| text::contains_text(k, "://"@)
}

/// The URL-keyed (served) modules among the registered ones, in code point order.
pub fn loaded_urls(registered: &Vec<String>) -> (r: Vec<String>)
    ensures
        text::texts(r@) == order::sorted_texts(text::texts(registered@).filter(url_keys())),
{
    let ghost all = text::texts(registered@);
    let mark = text::chars_of("://");
    let mut kept: Vec<Vec<char>> = Vec::new();
    proof {
        reveal(Seq::filter);
        assert(text::rows(kept@) =~= all.take(0).filter(url_keys()));
    }
    for i in 0..registered.len()
        invariant
            all == text::texts(registered@),
            mark@ == "://"@,
            text::rows(kept@) == all.take(i as int).filter(url_keys()),
    {
        proof {
            reveal(Seq::filter);
            assert(all.take(i + 1).drop_last() =~= all.take(i as int));
        }
        let cs = text::chars_of(registered[i].as_str());
        if text::has_infix(&cs, &mark) {
            let ghost before = kept@;
            kept.push(cs);
            assert(text::rows(kept@) =~= text::rows(before).push(all[i as int]));
        }
    }
    assert(all.take(all.len() as int) =~= all);
    order::sorted_strings(&kept)
}

/// An invalidation is about each key once: the keys are distinct, and none is empty.
pub proof fn law_keys_are_invalidated_once(keys: Seq<Seq<char>>)
    ensures
        distinct_keys(keys).no_duplicates(),
        forall|i: int| 0 <= i < distinct_keys(keys).len() ==> (#[trigger] distinct_keys(keys)[i]).len()
            > 0,
        forall|k: Seq<char>| k.len() > 0 ==> (distinct_keys(keys).contains(k) <==> keys.contains(k)),
    decreases keys.len(),
{
    if keys.len() > 0 {
        let d = keys.drop_last();
        law_keys_are_invalidated_once(d);
        let before = distinct_keys(d);
        let now = distinct_keys(keys);
        assert forall|k: Seq<char>| k.len() > 0 implies (now.contains(k) <==> keys.contains(k)) by {
            if keys.contains(k) {
                let i = keys.index_of(k);
                if i < d.len() {
                    assert(d[i] == k);
                    assert(d.contains(k));
                    assert(before.contains(k));
                    let j = before.index_of(k);
                    assert(now[j] == k);
                } else if !before.contains(k) {
                    assert(now[before.len() as int] == k);
                } else {
                    assert(now == before);
                }
            }
            if now.contains(k) {
                let j = now.index_of(k);
                if j < before.len() {
                    assert(before[j] == k);
                    assert(d.contains(k));
                    let i = d.index_of(k);
                    assert(keys[i] == k);
                } else {
                    assert(keys[keys.len() - 1] == k);
                }
            }
        }
        assert(now.no_duplicates()) by {
            assert forall|i: int, j: int|
                0 <= i < now.len() && 0 <= j < now.len() && i != j implies now[i] != now[j] by {
                if now.len() > before.len() {
                    if i == before.len() {
                        assert(before[j] == now[j]);
                        assert(before.contains(before[j]));
                    } else if j == before.len() {
                        assert(before[i] == now[i]);
                        assert(before.contains(before[i]));
                    }
                }
            }
        }
    }
}

/// After an invalidation the next fetch of each HTTP key carries a nonce.
pub proof fn law_invalidated_urls_are_busted(
    marks: Set<Seq<char>>,
    keys: Seq<Seq<char>>,
    key: Seq<char>,
    process: u32,
    nonce: u64,
)
    requires
        keys.contains(key),
        canonical::http(key),
    ensures
        ({
            let after = marks.union(keys.filter(http_keys()).to_set());
            &&& after.contains(key)
            &&& fetch::wire_url(key, after.contains(key), process, nonce) != key
        }),
{
    let i = keys.index_of(key);
    keys.lemma_filter_contains(http_keys(), i);
    assert(keys.filter(http_keys()).contains(key));
    assert(fetch::wire_url(key, true, process, nonce).len() > key.len());
}

/// The keys to invalidate come in the order in which they are first given; empty ones are skipped.
pub proof fn law_keys_are_invalidated_in_order(keys: Seq<Seq<char>>)
    ensures
        exists|pos: Seq<int>| #[trigger]
            pos.len() == distinct_keys(keys).len() && (forall|i: int|
                0 <= i < pos.len() ==> 0 <= #[trigger] pos[i] < keys.len() && distinct_keys(keys)[i]
                    == keys[pos[i]] && keys[pos[i]].len() > 0 && forall|j: int|
                    0 <= j < pos[i] ==> #[trigger] keys[j] != keys[pos[i]]) && (forall|
                i: int,
                j: int,
            |
                0 <= i < j < pos.len() ==> (#[trigger] pos[i]) < (#[trigger] pos[j])),
{
    let pos = lemma_key_places(keys);
    assert(pos.len() == distinct_keys(keys).len());
}

/// The places of the keys to invalidate.
#[verifier::rlimit(40)]
proof fn lemma_key_places(keys: Seq<Seq<char>>) -> (pos: Seq<int>)
    ensures
        pos.len() == distinct_keys(keys).len(),
        forall|i: int|
            0 <= i < pos.len() ==> 0 <= #[trigger] pos[i] < keys.len() && distinct_keys(keys)[i]
                == keys[pos[i]] && keys[pos[i]].len() > 0 && forall|j: int|
                0 <= j < pos[i] ==> #[trigger] keys[j] != keys[pos[i]],
        forall|i: int, j: int|
            0 <= i < j < pos.len() ==> (#[trigger] pos[i]) < (#[trigger] pos[j]),
    decreases keys.len(),
{
    if keys.len() == 0 {
        Seq::empty()
    } else {
        let d = keys.drop_last();
        let was = lemma_key_places(d);
        law_keys_are_invalidated_once(d);
        let before = distinct_keys(d);
        let now = distinct_keys(keys);
        assert forall|k: int| 0 <= k < d.len() implies #[trigger] keys[k] == d[k] by {}
        let taken = keys.last().len() > 0 && !before.contains(keys.last());
        let pos = if taken {
            was.push(keys.len() - 1)
        } else {
            was
        };
        assert forall|i: int| 0 <= i < pos.len() implies 0 <= #[trigger] pos[i] < keys.len()
            && now[i] == keys[pos[i]] && keys[pos[i]].len() > 0 && forall|j: int|
            0 <= j < pos[i] ==> #[trigger] keys[j] != keys[pos[i]] by {
            if i < was.len() {
                assert(pos[i] == was[i]);
                assert(now[i] == before[i]);
                assert forall|j: int| 0 <= j < pos[i] implies #[trigger] keys[j] != keys[pos[i]] by {
                    assert(d[j] != d[was[i]]);
                }
            } else {
                assert forall|j: int| 0 <= j < pos[i] implies #[trigger] keys[j] != keys[pos[i]] by {
                    if d[j] == keys.last() {
                        assert(d.contains(keys.last()));
                    }
                }
            }
        }
        pos
    }
}

/// As many modules were removed as keys had one.
pub proof fn law_removals_are_counted(found: Seq<bool>)
    ensures
        evictions(found) == found.filter(|b: bool| b).len(),
    decreases found.len(),
{
    reveal(Seq::filter);
    if found.len() > 0 {
        law_removals_are_counted(found.drop_last());
    }
}

/// Keys that start with a scheme of HTTP are fetched again; keys that hold `://` are those of served
/// modules.
pub proof fn law_keys_are_told_apart_by_their_scheme(k: Seq<char>)
    ensures
        http_keys()(k) <==> "http://"@.is_prefix_of(k) || "https://"@.is_prefix_of(k),
        url_keys()(k) <==> exists|a: Seq<char>, b: Seq<char>| k == #[trigger] (a + "://"@ + b),
{
    text::law_contained_texts_have_two_sides(k, "://"@);
}

/// What an argument that is no string is answered names its place.
pub proof fn law_arguments_are_refused_by_place(i: nat)
    ensures
        not_a_string(i as int) == "invalidateModules: urls["@ + text::decimal(i)
            + "] must be a string"@,
{
}

/// Keys to invalidate are strings: the first argument that is none is refused by its place, and
/// otherwise each string that is not empty is taken once.
pub proof fn law_invalidations_take_strings(
    urls: &Vec<Option<String>>,
    r: Result<Vec<String>, String>,
    key: Seq<char>,
)
    requires
        call_ensures(invalidation_keys, (urls,), r),
    ensures
        r is Ok <==> forall|i: int| 0 <= i < urls@.len() ==> (#[trigger] urls@[i]) is Some,
        r matches Ok(keys) ==> text::texts(keys@).no_duplicates() && (text::texts(keys@).contains(
            key,
        ) <==> key.len() > 0 && exists|i: int|
            0 <= i < urls@.len() && (#[trigger] urls@[i]) is Some && urls@[i]->Some_0@ == key),
        r matches Err(e) ==> exists|i: int|
            0 <= i < urls@.len() && (#[trigger] urls@[i]) is None && e@
                == "invalidateModules: urls["@ + text::decimal(i as nat) + "] must be a string"@,
{
    if let Ok(keys) = r {
        let all = Seq::new(urls@.len(), |i: int| urls@[i]->Some_0@);
        law_keys_are_invalidated_once(all);
        let taken = distinct_keys(all);
        assert(text::texts(keys@) == taken);
        if taken.contains(key) {
            let k = taken.index_of(key);
            assert(taken[k].len() > 0);
            assert(all.contains(key));
            let i = all.index_of(key);
            assert(urls@[i] is Some && urls@[i]->Some_0@ == key);
        }
        if key.len() > 0 && exists|i: int|
            0 <= i < urls@.len() && (#[trigger] urls@[i]) is Some && urls@[i]->Some_0@ == key {
            let i = choose|i: int|
                0 <= i < urls@.len() && (#[trigger] urls@[i]) is Some && urls@[i]->Some_0@ == key;
            assert(all[i] == key);
            assert(all.contains(key));
        }
    }
}

/// Every HTTP URL that was dropped is fetched anew, and nothing else is.
pub proof fn law_dropped_urls_are_fetched_anew(
    busts: &mut Busts,
    keys: &Vec<String>,
    key: Seq<char>,
)
    requires
        call_ensures(bust_dropped_keys, (busts, keys), ()),
    ensures
        final(busts).marks@.contains(key) <==> old(busts).marks@.contains(key) || ((
        "http://"@.is_prefix_of(key) || "https://"@.is_prefix_of(key)) && text::texts(
            keys@,
        ).contains(key)),
        final(busts).nonce == old(busts).nonce,
        final(busts).process == old(busts).process,
{
    let all = text::texts(keys@);
    let f = all.filter(http_keys());
    if f.contains(key) {
        let i = f.index_of(key);
        all.lemma_filter_pred(http_keys(), i);
        all.lemma_filter_contains_rev(http_keys(), key);
    }
    if http_keys()(key) && all.contains(key) {
        let i = all.index_of(key);
        all.lemma_filter_contains(http_keys(), i);
    }
    assert(f.to_set().contains(key) <==> f.contains(key));
}

/// The loaded URLs are the registered keys that hold `://`, in code point order.
#[verifier::rlimit(40)]
pub proof fn law_loaded_urls_are_listed_in_order(
    registered: &Vec<String>,
    r: Vec<String>,
    key: Seq<char>,
)
    requires
        call_ensures(loaded_urls, (registered,), r),
    ensures
        text::texts(r@).contains(key) <==> text::texts(registered@).contains(key) && exists|
            a: Seq<char>,
            b: Seq<char>,
        |
            key == #[trigger] (a + "://"@ + b),
        forall|i: int, j: int|
            0 <= i < j < r@.len() ==> order::text_le(
                (#[trigger] r@[i])@,
                (#[trigger] r@[j])@,
            ),
{
    broadcast use vstd::seq_lib::group_to_multiset_ensures;

    let all = text::texts(registered@);
    let f = all.filter(url_keys());
    let sorted = order::sorted_texts(f);
    order::law_sorted_texts_are_the_texts_in_order(f);
    law_keys_are_told_apart_by_their_scheme(key);
    assert(text::texts(r@) == sorted);
    assert(sorted.contains(key) <==> f.contains(key)) by {
        assert(sorted.to_multiset().contains(key) <==> sorted.contains(key));
        assert(f.to_multiset().contains(key) <==> f.contains(key));
    }
    if f.contains(key) {
        let i = f.index_of(key);
        all.lemma_filter_pred(url_keys(), i);
        all.lemma_filter_contains_rev(url_keys(), key);
    }
    if url_keys()(key) && all.contains(key) {
        let i = all.index_of(key);
        all.lemma_filter_contains(url_keys(), i);
    }
    assert forall|i: int, j: int| 0 <= i < j < r@.len() implies order::text_le(
        (#[trigger] r@[i])@,
        (#[trigger] r@[j])@,
    ) by {
        assert(sorted[i] == r@[i]@ && sorted[j] == r@[j]@);
    }
}

/// As many modules were removed as keys had one.
pub proof fn law_removed_modules_are_counted(found: &Vec<bool>, r: usize)
    requires
        call_ensures(removed_count, (found,), r),
    ensures
        r == found@.filter(|b: bool| b).len(),
{
    law_removals_are_counted(found@);
}

} // verus!
