//! Import-map resolution.

use crate::json::JsonView;
use crate::loader::entries::Entries;
use crate::loader::vocabulary;
use crate::loader::vocabulary::{ImportMapView, LoaderVocabulary};
use crate::order;
use crate::text;
use vstd::prelude::*;

verus! {

/// The longest part of `specifier` of at most `n` characters that ends in a slash and has an entry.
pub open spec fn longest_prefix(
    entries: Map<Seq<char>, Seq<char>>,
    specifier: Seq<char>,
    n: int,
) -> Option<int>
    decreases n,
{
    if n <= 0 {
        None
    } else if specifier[n - 1] == '/' && entries.contains_key(specifier.take(n)) {
        Some(n)
    } else {
        longest_prefix(entries, specifier, n - 1)
    }
}

/// What one section maps `specifier` to: its own entry, or else the entry of the longest proper
/// prefix that ends in a slash, with the rest of the specifier behind the target.
pub open spec fn found_in(entries: Map<Seq<char>, Seq<char>>, specifier: Seq<char>) -> Option<
    Seq<char>,
> {
    if entries.contains_key(specifier) {
        Some(entries[specifier])
    } else {
        match longest_prefix(entries, specifier, specifier.len() - 1) {
            Some(n) => Some(entries[specifier.take(n)] + specifier.skip(n)),
            None => None,
        }
    }
}

/// What the first scope says that matches the referrer and maps the specifier.
pub open spec fn found_in_scopes(
    scopes: Seq<(Seq<char>, Map<Seq<char>, Seq<char>>)>,
    specifier: Seq<char>,
    referrer: Seq<char>,
) -> Option<Seq<char>>
    decreases scopes.len(),
{
    if scopes.len() == 0 {
        None
    } else if applies(scopes[0], specifier, referrer) {
        found_in(scopes[0].1, specifier)
    } else {
        found_in_scopes(scopes.drop_first(), specifier, referrer)
    }
}

/// Whether a scope matches the referrer and maps the specifier.
pub open spec fn applies(
    scope: (Seq<char>, Map<Seq<char>, Seq<char>>),
    specifier: Seq<char>,
    referrer: Seq<char>,
) -> bool {
    scope.0.is_prefix_of(referrer) && found_in(scope.1, specifier) is Some
}

/// What the import map says: the scopes in order, then the top-level imports.
pub open spec fn mapped(m: ImportMapView, specifier: Seq<char>, referrer: Seq<char>) -> Option<
    Seq<char>,
> {
    match found_in_scopes(m.scopes, specifier, referrer) {
        Some(t) => Some(t),
        None => found_in(m.imports, specifier),
    }
}

/// Whether one of the volatile patterns stands in `url`.
pub open spec fn volatile(patterns: Seq<Seq<char>>, url: Seq<char>) -> bool {
    exists|i: int| 0 <= i < patterns.len() && text::contains_text(url, #[trigger] patterns[i])
}

/// What one section maps `spec` to.
pub fn lookup_in(entries: &Entries, spec: &str) -> (r: Option<String>)
    ensures
        match r {
            Some(t) => found_in(entries@, spec@) == Some(t@),
            None => found_in(entries@, spec@) is None,
        },
{
    if let Some(v) = entries.get(spec) {
        return Some(v.clone());
    }
    let cs = text::chars_of(spec);
    if cs.len() == 0 {
        return None;
    }
    let mut n: usize = cs.len() - 1;
    while n > 0
        invariant
            n < cs@.len(),
            cs@ == spec@,
            !entries@.contains_key(spec@),
            longest_prefix(entries@, spec@, spec@.len() - 1) == longest_prefix(
                entries@,
                spec@,
                n as int,
            ),
        decreases n,
    {
        if cs[n - 1] == '/' {
            let prefix = text::string_of(&text::piece(&cs, 0, n));
            assert(prefix@ == spec@.take(n as int));
            if let Some(v) = entries.get(prefix.as_str()) {
                let rest = text::string_of(&text::piece(&cs, n, cs.len()));
                assert(rest@ == spec@.skip(n as int));
                return Some(text::concat2(v.as_str(), rest.as_str()));
            }
        }
        n = n - 1;
    }
    None
}

/// Import-map resolution: the most specific scope matching the referrer's registry key first, then
/// less specific ones, then the top-level imports.
pub fn lookup_import_map(
    vocabulary: &LoaderVocabulary,
    spec: &str,
    referrer_key: &str,
) -> (r: Option<String>)
    ensures
        match r {
            Some(t) => mapped(vocabulary@.import_map, spec@, referrer_key@) == Some(t@),
            None => mapped(vocabulary@.import_map, spec@, referrer_key@) is None,
        },
{
    let scopes = &vocabulary.import_map.scopes;
    let ghost all = vocabulary@.import_map.scopes;
    assert(all.skip(0) == all);
    for i in 0..scopes.len()
        invariant
            all == vocabulary::scope_views(scopes@),
            all == vocabulary@.import_map.scopes,
            found_in_scopes(all, spec@, referrer_key@) == found_in_scopes(
                all.skip(i as int),
                spec@,
                referrer_key@,
            ),
    {
        assert(all.skip(i as int).drop_first() == all.skip(i + 1));
        if text::text_starts_with(referrer_key, scopes[i].0.as_str()) {
            if let Some(t) = lookup_in(&scopes[i].1, spec) {
                return Some(t);
            }
        }
    }
    lookup_in(&vocabulary.import_map.imports, spec)
}

/// Whether a URL is volatile: one of the configured patterns stands in it.
pub fn is_volatile(vocabulary: &LoaderVocabulary, url: &str) -> (r: bool)
    ensures
        r == volatile(vocabulary@.volatile_patterns, url@),
{
    let cs = text::chars_of(url);
    let patterns = &vocabulary.volatile_patterns;
    let ghost all = vocabulary@.volatile_patterns;
    for i in 0..patterns.len()
        invariant
            all == text::texts(patterns@),
            all == vocabulary@.volatile_patterns,
            cs@ == url@,
            forall|j: int| 0 <= j < i ==> !text::contains_text(url@, #[trigger] all[j]),
    {
        assert(all[i as int] == patterns@[i as int]@);
        if text::has_infix(&cs, &text::chars_of(patterns[i].as_str())) {
            return true;
        }
    }
    false
}

/// Whether the scopes stand the most specific first: no later prefix is longer.
pub open spec fn most_specific_first(scopes: Seq<(Seq<char>, Map<Seq<char>, Seq<char>>)>) -> bool {
    forall|i: int, j: int|
        0 <= i < j < scopes.len() ==> text::byte_len((#[trigger] scopes[i]).0) >= text::byte_len(
            (#[trigger] scopes[j]).0,
        )
}

/// Every accepted configuration puts its scopes the most specific first.
pub proof fn law_configured_scopes_are_sorted(config: JsonView)
    ensures
        vocabulary::config_of(config) matches Ok(c) ==> (c.import_map matches Some(m)
            ==> most_specific_first(m.scopes)),
{
    if let Ok(c) = vocabulary::config_of(config) {
        if let Some(m) = c.import_map {
            let members = config->Object_0;
            let v = crate::json::member(members, "importMap"@)->Some_0;
            let raw = vocabulary::sections_of(
                v->Object_0,
                vocabulary::unconfigured().import_map,
            )->Ok_0.scopes;
            let le = vocabulary::by_scope();
            order::lemma_text_order();
            let by_text = order::by_text();
            assert forall|a: (Seq<char>, Map<Seq<char>, Seq<char>>), b: (
                Seq<char>,
                Map<Seq<char>, Seq<char>>,
            )| #[trigger] le(a, b) || le(b, a) by {
                assert(by_text(a.0, b.0) || by_text(b.0, a.0));
            }
            assert forall|
                a: (Seq<char>, Map<Seq<char>, Seq<char>>),
                b: (Seq<char>, Map<Seq<char>, Seq<char>>),
                c: (Seq<char>, Map<Seq<char>, Seq<char>>),
            | #[trigger] le(a, b) && #[trigger] le(b, c) implies le(a, c) by {
                if text::byte_len(a.0) == text::byte_len(b.0) && text::byte_len(b.0)
                    == text::byte_len(c.0) {
                    assert(by_text(c.0, b.0) && by_text(b.0, a.0));
                    assert(by_text(c.0, a.0));
                }
            }
            order::lemma_sort_sorted(raw, le);
            assert forall|i: int, j: int| 0 <= i < j < m.scopes.len() implies text::byte_len(
                (#[trigger] m.scopes[i]).0,
            ) >= text::byte_len((#[trigger] m.scopes[j]).0) by {
                assert(le(m.scopes[i], m.scopes[j]));
            }
        }
    }
}

/// Of the scopes that match the referrer and map the specifier, a most specific one decides; with
/// none, the top-level imports do.
pub proof fn law_most_specific_scope_decides(
    m: ImportMapView,
    specifier: Seq<char>,
    referrer: Seq<char>,
)
    requires
        most_specific_first(m.scopes),
    ensures
        (exists|k: int|
            #![trigger m.scopes[k]]
            0 <= k < m.scopes.len() && applies(m.scopes[k], specifier, referrer) && mapped(
                m,
                specifier,
                referrer,
            ) == found_in(m.scopes[k].1, specifier) && forall|j: int|
                #![trigger m.scopes[j]]
                0 <= j < m.scopes.len() && applies(m.scopes[j], specifier, referrer)
                    ==> text::byte_len(m.scopes[j].0) <= text::byte_len(m.scopes[k].0)) || ((forall|
            j: int,
        |
            0 <= j < m.scopes.len() ==> !applies(#[trigger] m.scopes[j], specifier, referrer))
            && mapped(m, specifier, referrer) == found_in(m.imports, specifier)),
{
    lemma_first_scope(m.scopes, specifier, referrer);
    if found_in_scopes(m.scopes, specifier, referrer) is Some {
        let k = choose|k: int|
            #![trigger m.scopes[k]]
            0 <= k < m.scopes.len() && applies(m.scopes[k], specifier, referrer)
                && found_in_scopes(m.scopes, specifier, referrer) == found_in(
                m.scopes[k].1,
                specifier,
            ) && forall|j: int|
                0 <= j < k ==> !applies(#[trigger] m.scopes[j], specifier, referrer);
        assert forall|j: int|
            #![trigger m.scopes[j]]
            0 <= j < m.scopes.len() && applies(
                m.scopes[j],
                specifier,
                referrer,
            ) implies text::byte_len(m.scopes[j].0) <= text::byte_len(m.scopes[k].0) by {
            if k < j {
                assert(text::byte_len(m.scopes[k].0) >= text::byte_len(m.scopes[j].0));
            }
        }
    }
}

/// The first scope that applies decides.
proof fn lemma_first_scope(
    scopes: Seq<(Seq<char>, Map<Seq<char>, Seq<char>>)>,
    specifier: Seq<char>,
    referrer: Seq<char>,
)
    ensures
        found_in_scopes(scopes, specifier, referrer) is Some ==> exists|k: int|
            #![trigger scopes[k]]
            0 <= k < scopes.len() && applies(scopes[k], specifier, referrer) && found_in_scopes(
                scopes,
                specifier,
                referrer,
            ) == found_in(scopes[k].1, specifier) && forall|j: int|
                0 <= j < k ==> !applies(#[trigger] scopes[j], specifier, referrer),
        found_in_scopes(scopes, specifier, referrer) is None ==> forall|j: int|
            0 <= j < scopes.len() ==> !applies(#[trigger] scopes[j], specifier, referrer),
    decreases scopes.len(),
{
    if scopes.len() > 0 {
        if applies(scopes[0], specifier, referrer) {
            assert(0 <= 0 < scopes.len());
        } else {
            let rest = scopes.drop_first();
            lemma_first_scope(rest, specifier, referrer);
            if found_in_scopes(rest, specifier, referrer) is Some {
                let k = choose|k: int|
                    #![trigger rest[k]]
                    0 <= k < rest.len() && applies(rest[k], specifier, referrer)
                        && found_in_scopes(rest, specifier, referrer) == found_in(
                        rest[k].1,
                        specifier,
                    ) && forall|j: int|
                        0 <= j < k ==> !applies(#[trigger] rest[j], specifier, referrer);
                assert(scopes[k + 1] == rest[k]);
                assert forall|j: int| 0 <= j < k + 1 implies !applies(
                    #[trigger] scopes[j],
                    specifier,
                    referrer,
                ) by {
                    if j > 0 {
                        assert(scopes[j] == rest[j - 1]);
                    }
                }
            } else {
                assert forall|j: int| 0 <= j < scopes.len() implies !applies(
                    #[trigger] scopes[j],
                    specifier,
                    referrer,
                ) by {
                    if j > 0 {
                        assert(scopes[j] == rest[j - 1]);
                    }
                }
            }
        }
    }
}

/// Whether the first `n` characters of `specifier` are a proper part of it that ends in a slash and
/// has an entry.
pub open spec fn maps_subtree(
    entries: Map<Seq<char>, Seq<char>>,
    specifier: Seq<char>,
    n: int,
) -> bool {
    0 < n < specifier.len() && specifier[n - 1] == '/' && entries.contains_key(specifier.take(n))
}

/// A specifier with an entry of its own goes by it. Any other goes by the longest entry that ends in
/// a slash and is a proper prefix of it, with the rest behind the target; with none of these it is
/// not mapped.
pub proof fn law_longest_entry_maps_a_subtree(
    entries: Map<Seq<char>, Seq<char>>,
    specifier: Seq<char>,
)
    ensures
        entries.contains_key(specifier) ==> found_in(entries, specifier) == Some(
            entries[specifier],
        ),
        !entries.contains_key(specifier) ==> ({
            ||| exists|k: int|
                {
                    &&& #[trigger] maps_subtree(entries, specifier, k)
                    &&& found_in(entries, specifier) == Some(
                        entries[specifier.take(k)] + specifier.skip(k),
                    )
                    &&& forall|n: int| #[trigger] maps_subtree(entries, specifier, n) ==> n <= k
                }
            ||| {
                &&& forall|n: int| !#[trigger] maps_subtree(entries, specifier, n)
                &&& found_in(entries, specifier) is None
            }
        }),
{
    lemma_longest_prefix(entries, specifier, specifier.len() - 1);
    match longest_prefix(entries, specifier, specifier.len() - 1) {
        Some(k) => {
            assert(maps_subtree(entries, specifier, k));
        },
        None => {},
    }
}

proof fn lemma_longest_prefix(
    entries: Map<Seq<char>, Seq<char>>,
    specifier: Seq<char>,
    top: int,
)
    requires
        top < specifier.len(),
    ensures
        match longest_prefix(entries, specifier, top) {
            Some(k) => k <= top && maps_subtree(entries, specifier, k) && forall|n: int|
                n <= top && #[trigger] maps_subtree(entries, specifier, n) ==> n <= k,
            None => forall|n: int| n <= top ==> !#[trigger] maps_subtree(entries, specifier, n),
        },
    decreases top,
{
    if top > 0 && !(specifier[top - 1] == '/' && entries.contains_key(specifier.take(top))) {
        lemma_longest_prefix(entries, specifier, top - 1);
    }
}

/// Whether an import map takes a specifier from a scope: where some scope's prefix is a prefix of the
/// referrer and its entries map the specifier, exactly or by an entry that ends in a slash and is a
/// proper prefix of it, the first such scope decides, by the exact entry or else by the longest such
/// one, with the rest of the specifier behind its target.
pub proof fn law_scopes_come_before_the_imports(
    m: ImportMapView,
    specifier: Seq<char>,
    referrer: Seq<char>,
    k: int,
)
    requires
        0 <= k < m.scopes.len(),
        m.scopes[k].0.is_prefix_of(referrer),
        m.scopes[k].1.contains_key(specifier) || exists|n: int|
            0 < n < specifier.len() && specifier[n - 1] == '/' && m.scopes[k].1.contains_key(
                #[trigger] specifier.take(n),
            ),
        forall|j: int|
            0 <= j < k && (#[trigger] m.scopes[j]).0.is_prefix_of(referrer)
                ==> !m.scopes[j].1.contains_key(specifier) && forall|n: int|
                0 < n < specifier.len() && specifier[n - 1] == '/' ==> !m.scopes[j].1.contains_key(
                    #[trigger] specifier.take(n),
                ),
    ensures
        m.scopes[k].1.contains_key(specifier) ==> mapped(m, specifier, referrer) == Some(
            m.scopes[k].1[specifier],
        ),
        !m.scopes[k].1.contains_key(specifier) ==> exists|n: int|
            0 < n < specifier.len() && specifier[n - 1] == '/' && m.scopes[k].1.contains_key(
                #[trigger] specifier.take(n),
            ) && mapped(m, specifier, referrer) == Some(
                m.scopes[k].1[specifier.take(n)] + specifier.skip(n),
            ) && forall|h: int|
                n < h < specifier.len() && specifier[h - 1] == '/' ==> !m.scopes[k].1.contains_key(
                    #[trigger] specifier.take(h),
                ),
{
    law_entries_map_exactly_or_by_subtree(m.scopes[k].1, specifier);
    assert(applies(m.scopes[k], specifier, referrer));
    assert forall|j: int| 0 <= j < k implies !applies(
        #[trigger] m.scopes[j],
        specifier,
        referrer,
    ) by {
        law_entries_map_exactly_or_by_subtree(m.scopes[j].1, specifier);
    }
    lemma_scope_decides(m.scopes, specifier, referrer, k);
}

/// The first scope that applies decides.
proof fn lemma_scope_decides(
    scopes: Seq<(Seq<char>, Map<Seq<char>, Seq<char>>)>,
    specifier: Seq<char>,
    referrer: Seq<char>,
    k: int,
)
    requires
        0 <= k < scopes.len(),
        applies(scopes[k], specifier, referrer),
        forall|j: int| 0 <= j < k ==> !applies(#[trigger] scopes[j], specifier, referrer),
    ensures
        found_in_scopes(scopes, specifier, referrer) == found_in(scopes[k].1, specifier),
    decreases k,
{
    if k > 0 {
        let rest = scopes.drop_first();
        assert(!applies(scopes[0], specifier, referrer));
        assert forall|j: int| 0 <= j < k - 1 implies !applies(
            #[trigger] rest[j],
            specifier,
            referrer,
        ) by {
            assert(rest[j] == scopes[j + 1]);
        }
        lemma_scope_decides(rest, specifier, referrer, k - 1);
    }
}

/// Where no scope that matches the referrer maps the specifier, the top-level imports decide in the
/// same way, and a specifier that they do not map either is not mapped.
pub proof fn law_imports_decide_where_no_scope_does(
    m: ImportMapView,
    specifier: Seq<char>,
    referrer: Seq<char>,
)
    requires
        forall|j: int|
            0 <= j < m.scopes.len() && (#[trigger] m.scopes[j]).0.is_prefix_of(referrer)
                ==> !m.scopes[j].1.contains_key(specifier) && forall|n: int|
                0 < n < specifier.len() && specifier[n - 1] == '/' ==> !m.scopes[j].1.contains_key(
                    #[trigger] specifier.take(n),
                ),
    ensures
        m.imports.contains_key(specifier) ==> mapped(m, specifier, referrer) == Some(
            m.imports[specifier],
        ),
        !m.imports.contains_key(specifier) ==> ({
            ||| exists|n: int|
                0 < n < specifier.len() && specifier[n - 1] == '/' && m.imports.contains_key(
                    #[trigger] specifier.take(n),
                ) && mapped(m, specifier, referrer) == Some(
                    m.imports[specifier.take(n)] + specifier.skip(n),
                ) && forall|h: int|
                    n < h < specifier.len() && specifier[h - 1] == '/' ==> !m.imports.contains_key(
                        #[trigger] specifier.take(h),
                    )
            ||| mapped(m, specifier, referrer) is None && forall|n: int|
                0 < n < specifier.len() && specifier[n - 1] == '/' ==> !m.imports.contains_key(
                    #[trigger] specifier.take(n),
                )
        }),
{
    assert forall|j: int| 0 <= j < m.scopes.len() implies !applies(
        #[trigger] m.scopes[j],
        specifier,
        referrer,
    ) by {
        law_entries_map_exactly_or_by_subtree(m.scopes[j].1, specifier);
    }
    lemma_first_scope(m.scopes, specifier, referrer);
    law_entries_map_exactly_or_by_subtree(m.imports, specifier);
}

/// What one section says of a specifier, by its entries alone.
pub proof fn law_entries_map_exactly_or_by_subtree(
    entries: Map<Seq<char>, Seq<char>>,
    specifier: Seq<char>,
)
    ensures
        entries.contains_key(specifier) ==> found_in(entries, specifier) == Some(
            entries[specifier],
        ),
        !entries.contains_key(specifier) ==> ({
            ||| exists|n: int|
                0 < n < specifier.len() && specifier[n - 1] == '/' && entries.contains_key(
                    #[trigger] specifier.take(n),
                ) && found_in(entries, specifier) == Some(
                    entries[specifier.take(n)] + specifier.skip(n),
                ) && forall|h: int|
                    n < h < specifier.len() && specifier[h - 1] == '/' ==> !entries.contains_key(
                        #[trigger] specifier.take(h),
                    )
            ||| found_in(entries, specifier) is None && forall|n: int|
                0 < n < specifier.len() && specifier[n - 1] == '/' ==> !entries.contains_key(
                    #[trigger] specifier.take(n),
                )
        }),
{
    law_longest_entry_maps_a_subtree(entries, specifier);
    if !entries.contains_key(specifier) {
        if exists|k: int|
            {
                &&& #[trigger] maps_subtree(entries, specifier, k)
                &&& found_in(entries, specifier) == Some(
                    entries[specifier.take(k)] + specifier.skip(k),
                )
                &&& forall|n: int| #[trigger] maps_subtree(entries, specifier, n) ==> n <= k
            } {
            let n = choose|k: int|
                {
                    &&& #[trigger] maps_subtree(entries, specifier, k)
                    &&& found_in(entries, specifier) == Some(
                        entries[specifier.take(k)] + specifier.skip(k),
                    )
                    &&& forall|n: int| #[trigger] maps_subtree(entries, specifier, n) ==> n <= k
                };
            assert(entries.contains_key(specifier.take(n)));
            assert forall|h: int|
                n < h < specifier.len() && specifier[h - 1] == '/' implies !entries.contains_key(
                #[trigger] specifier.take(h),
            ) by {
                assert(!maps_subtree(entries, specifier, h));
            }
        } else {
            assert forall|n: int|
                0 < n < specifier.len() && specifier[n - 1] == '/' implies !entries.contains_key(
                #[trigger] specifier.take(n),
            ) by {
                assert(!maps_subtree(entries, specifier, n));
            }
        }
    }
}

/// A URL is volatile exactly where one of the patterns stands in it, with anything on either side.
pub proof fn law_volatile_urls_hold_a_pattern(patterns: Seq<Seq<char>>, url: Seq<char>)
    ensures
        volatile(patterns, url) <==> exists|i: int, n: int|
            0 <= i < patterns.len() && 0 <= n <= url.len() - patterns[i].len()
                && #[trigger] url.subrange(n, n + patterns[i].len()) == patterns[i],
{
    if volatile(patterns, url) {
        let i = choose|i: int|
            0 <= i < patterns.len() && text::contains_text(url, #[trigger] patterns[i]);
        let n = choose|n: int| #[trigger] text::occurs_at(url, patterns[i], n);
        assert(url.subrange(n, n + patterns[i].len()) == patterns[i]);
    }
    if exists|i: int, n: int|
        0 <= i < patterns.len() && 0 <= n <= url.len() - patterns[i].len()
            && #[trigger] url.subrange(n, n + patterns[i].len()) == patterns[i] {
        let (i, n) = choose|i: int, n: int|
            0 <= i < patterns.len() && 0 <= n <= url.len() - patterns[i].len()
                && #[trigger] url.subrange(n, n + patterns[i].len()) == patterns[i];
        assert(text::occurs_at(url, patterns[i], n));
        assert(text::contains_text(url, patterns[i]));
    }
}

/// A lookup in the import map takes the specifier from the first scope in order whose prefix is one
/// of the referrer and whose entries map it, exactly or by the longest entry that ends in a slash and
/// is a proper prefix of it; and from the top-level imports only where there is no such scope.
pub proof fn law_lookups_take_the_first_scope_that_maps(
    vocabulary: &LoaderVocabulary,
    spec: &str,
    referrer_key: &str,
    r: Option<String>,
    k: int,
)
    requires
        call_ensures(lookup_import_map, (vocabulary, spec, referrer_key), r),
        0 <= k < vocabulary.import_map.scopes@.len(),
        ({
            let scopes = vocabulary.import_map.scopes@;
            &&& scopes[k].0@.is_prefix_of(referrer_key@)
            &&& scopes[k].1@.contains_key(spec@) || exists|n: int|
                0 < n < spec@.len() && spec@[n - 1] == '/' && scopes[k].1@.contains_key(
                    #[trigger] spec@.take(n),
                )
            &&& forall|j: int|
                0 <= j < k && (#[trigger] scopes[j]).0@.is_prefix_of(referrer_key@)
                    ==> !scopes[j].1@.contains_key(spec@) && forall|n: int|
                    0 < n < spec@.len() && spec@[n - 1] == '/' ==> !scopes[j].1@.contains_key(
                        #[trigger] spec@.take(n),
                    )
        }),
    ensures
        ({
            let entries = vocabulary.import_map.scopes@[k].1@;
            &&& entries.contains_key(spec@) ==> (r matches Some(t) && t@ == entries[spec@])
            &&& !entries.contains_key(spec@) ==> (r matches Some(t) && exists|n: int|
                0 < n < spec@.len() && spec@[n - 1] == '/' && entries.contains_key(
                    #[trigger] spec@.take(n),
                ) && t@ == entries[spec@.take(n)] + spec@.skip(n) && forall|h: int|
                    n < h < spec@.len() && spec@[h - 1] == '/' ==> !entries.contains_key(
                        #[trigger] spec@.take(h),
                    ))
        }),
{
    let m = vocabulary@.import_map;
    assert(m.scopes.len() == vocabulary.import_map.scopes@.len());
    assert forall|j: int| 0 <= j < m.scopes.len() implies #[trigger] m.scopes[j] == (
        vocabulary.import_map.scopes@[j].0@,
        vocabulary.import_map.scopes@[j].1@,
    ) by {}
    assert forall|j: int|
        0 <= j < k && (#[trigger] m.scopes[j]).0.is_prefix_of(
            referrer_key@,
        ) implies !m.scopes[j].1.contains_key(spec@) && forall|n: int|
        0 < n < spec@.len() && spec@[n - 1] == '/' ==> !m.scopes[j].1.contains_key(
            #[trigger] spec@.take(n),
        ) by {
        let scope = vocabulary.import_map.scopes@[j];
        assert(scope.0@.is_prefix_of(referrer_key@));
    }
    law_scopes_come_before_the_imports(m, spec@, referrer_key@, k);
}

/// Where no scope that matches the referrer maps the specifier, a lookup goes by the top-level imports,
/// exactly or by the longest entry that ends in a slash and is a proper prefix; it fails only where
/// they do not map it either.
pub proof fn law_lookups_fall_back_to_the_imports(
    vocabulary: &LoaderVocabulary,
    spec: &str,
    referrer_key: &str,
    r: Option<String>,
)
    requires
        call_ensures(lookup_import_map, (vocabulary, spec, referrer_key), r),
        forall|j: int|
            0 <= j < vocabulary.import_map.scopes@.len() && (
            #[trigger] vocabulary.import_map.scopes@[j]).0@.is_prefix_of(referrer_key@)
                ==> !vocabulary.import_map.scopes@[j].1@.contains_key(spec@) && forall|n: int|
                0 < n < spec@.len() && spec@[n - 1] == '/'
                    ==> !vocabulary.import_map.scopes@[j].1@.contains_key(#[trigger] spec@.take(n)),
    ensures
        ({
            let entries = vocabulary.import_map.imports@;
            &&& entries.contains_key(spec@) ==> (r matches Some(t) && t@ == entries[spec@])
            &&& r is None ==> !entries.contains_key(spec@) && forall|n: int|
                0 < n < spec@.len() && spec@[n - 1] == '/' ==> !entries.contains_key(
                    #[trigger] spec@.take(n),
                )
            &&& !entries.contains_key(spec@) && r is Some ==> exists|n: int|
                0 < n < spec@.len() && spec@[n - 1] == '/' && entries.contains_key(
                    #[trigger] spec@.take(n),
                ) && r->Some_0@ == entries[spec@.take(n)] + spec@.skip(n) && forall|h: int|
                    n < h < spec@.len() && spec@[h - 1] == '/' ==> !entries.contains_key(
                        #[trigger] spec@.take(h),
                    )
        }),
{
    let m = vocabulary@.import_map;
    assert forall|j: int|
        0 <= j < m.scopes.len() && (#[trigger] m.scopes[j]).0.is_prefix_of(
            referrer_key@,
        ) implies !m.scopes[j].1.contains_key(spec@) && forall|n: int|
        0 < n < spec@.len() && spec@[n - 1] == '/' ==> !m.scopes[j].1.contains_key(
            #[trigger] spec@.take(n),
        ) by {
        let scope = vocabulary.import_map.scopes@[j];
        assert(scope.0@.is_prefix_of(referrer_key@));
    }
    law_imports_decide_where_no_scope_does(m, spec@, referrer_key@);
}

/// A URL is volatile exactly where a configured pattern stands in it.
pub proof fn law_volatile_urls_are_recognized(vocabulary: &LoaderVocabulary, url: &str, r: bool)
    requires
        call_ensures(is_volatile, (vocabulary, url), r),
    ensures
        r <==> exists|i: int, n: int|
            0 <= i < vocabulary@.volatile_patterns.len() && 0 <= n <= url@.len()
                - vocabulary@.volatile_patterns[i].len() && #[trigger] url@.subrange(
                n,
                n + vocabulary@.volatile_patterns[i].len(),
            ) == vocabulary@.volatile_patterns[i],
{
    law_volatile_urls_hold_a_pattern(vocabulary@.volatile_patterns, url@);
}

/// A lookup in one section goes by its entries alone.
pub proof fn law_section_lookups_go_by_entries(entries: &Entries, spec: &str, r: Option<String>)
    requires
        call_ensures(lookup_in, (entries, spec), r),
    ensures
        entries@.contains_key(spec@) ==> (r matches Some(t) && t@ == entries@[spec@]),
        r is None <==> !entries@.contains_key(spec@) && forall|n: int|
            0 < n < spec@.len() && spec@[n - 1] == '/' ==> !entries@.contains_key(
                #[trigger] spec@.take(n),
            ),
{
    law_entries_map_exactly_or_by_subtree(entries@, spec@);
}

} // verus!
