//! The loader's vocabulary, and the configuration that replaces its sections.

use crate::json;
use crate::json::{Json, JsonView};
use crate::loader::entries::Entries;
use crate::order;
use crate::text;
use crate::text_map;
use vstd::prelude::*;

verus! {

/// Which URLs are dev endpoints and what of their query is identity.
pub struct Canonicalization {
    pub strip_params: Vec<String>,
    pub dev_path_prefixes: Vec<String>,
    pub preserve_query_for: Vec<String>,
}

/// Top-level entries, and the entries of each scope, the most specific scope first.
pub struct ImportMap {
    pub imports: Entries,
    pub scopes: Vec<(String, Entries)>,
}

/// What the client has configured.
pub struct LoaderVocabulary {
    pub import_map: ImportMap,
    pub volatile_patterns: Vec<String>,
    pub canonicalization: Option<Canonicalization>,
}

/// A checked configuration: the sections that were given.
pub struct LoaderConfig {
    pub import_map: Option<ImportMap>,
    pub volatile_patterns: Option<Vec<String>>,
    pub canonicalization: Option<Canonicalization>,
}

pub struct CanonicalizationView {
    pub strip_params: Seq<Seq<char>>,
    pub dev_path_prefixes: Seq<Seq<char>>,
    pub preserve_query_for: Seq<Seq<char>>,
}

pub struct ImportMapView {
    pub imports: Map<Seq<char>, Seq<char>>,
    pub scopes: Seq<(Seq<char>, Map<Seq<char>, Seq<char>>)>,
}

pub struct VocabularyView {
    pub import_map: ImportMapView,
    pub volatile_patterns: Seq<Seq<char>>,
    pub canonicalization: Option<CanonicalizationView>,
}

pub struct ConfigView {
    pub import_map: Option<ImportMapView>,
    pub volatile_patterns: Option<Seq<Seq<char>>>,
    pub canonicalization: Option<CanonicalizationView>,
}

/// The views of scopes.
pub open spec fn scope_views(scopes: Seq<(String, Entries)>) -> Seq<
    (Seq<char>, Map<Seq<char>, Seq<char>>),
> {
    Seq::new(scopes.len(), |i: int| (scopes[i].0@, scopes[i].1@))
}

impl View for Canonicalization {
    type V = CanonicalizationView;

    open spec fn view(&self) -> CanonicalizationView {
        CanonicalizationView {
            strip_params: text::texts(self.strip_params@),
            dev_path_prefixes: text::texts(self.dev_path_prefixes@),
            preserve_query_for: text::texts(self.preserve_query_for@),
        }
    }
}

impl View for ImportMap {
    type V = ImportMapView;

    open spec fn view(&self) -> ImportMapView {
        ImportMapView { imports: self.imports@, scopes: scope_views(self.scopes@) }
    }
}

/// The view of an optional canonicalization.
pub open spec fn canonicalization_view(c: Option<Canonicalization>) -> Option<
    CanonicalizationView,
> {
    match c {
        Some(c) => Some(c@),
        None => None,
    }
}

impl View for LoaderVocabulary {
    type V = VocabularyView;

    open spec fn view(&self) -> VocabularyView {
        VocabularyView {
            import_map: self.import_map@,
            volatile_patterns: text::texts(self.volatile_patterns@),
            canonicalization: canonicalization_view(self.canonicalization),
        }
    }
}

impl View for LoaderConfig {
    type V = ConfigView;

    open spec fn view(&self) -> ConfigView {
        ConfigView {
            import_map: match self.import_map {
                Some(m) => Some(m@),
                None => None,
            },
            volatile_patterns: match self.volatile_patterns {
                Some(p) => Some(text::texts(p@)),
                None => None,
            },
            canonicalization: canonicalization_view(self.canonicalization),
        }
    }
}

/// The vocabulary before anything is configured.
pub open spec fn unconfigured() -> VocabularyView {
    VocabularyView {
        import_map: ImportMapView { imports: Map::empty(), scopes: Seq::empty() },
        volatile_patterns: Seq::empty(),
        canonicalization: None,
    }
}

/// A longer prefix comes first; of two as long, the one later in code point order.
pub open spec fn scope_le(a: Seq<char>, b: Seq<char>) -> bool {
    ||| text::byte_len(a) > text::byte_len(b)
    ||| text::byte_len(a) == text::byte_len(b) && order::text_le(b, a)
}

/// [`scope_le`] on whole scopes.
pub open spec fn by_scope() -> spec_fn(
    (Seq<char>, Map<Seq<char>, Seq<char>>),
    (Seq<char>, Map<Seq<char>, Seq<char>>),
) -> bool {
    |a: (Seq<char>, Map<Seq<char>, Seq<char>>), b: (Seq<char>, Map<Seq<char>, Seq<char>>)|
        scope_le(a.0, b.0)
}

/// The pairs of an object whose values are all strings, or the complaint about the first that is
/// not.
pub open spec fn text_pairs(
    members: Seq<(Seq<char>, JsonView)>,
    what: Seq<char>,
) -> Result<Seq<(Seq<char>, Seq<char>)>, Seq<char>>
    decreases members.len(),
{
    if members.len() == 0 {
        Ok(Seq::empty())
    } else {
        match text_pairs(members.drop_last(), what) {
            Err(e) => Err(e),
            Ok(pairs) => match members.last().1 {
                JsonView::Text(s) => Ok(pairs.push((members.last().0, s))),
                _ => Err(
                    what + ": the value for '"@ + members.last().0 + "' must be a string"@,
                ),
            },
        }
    }
}

/// A value that has to be an object of strings.
pub open spec fn string_map_of(v: JsonView, what: Seq<char>) -> Result<
    Map<Seq<char>, Seq<char>>,
    Seq<char>,
> {
    match v {
        JsonView::Object(members) => match text_pairs(members, what) {
            Ok(pairs) => Ok(text_map::pairs_map(pairs)),
            Err(e) => Err(e),
        },
        _ => Err(what + " must be an object"@),
    }
}

/// A value that has to be an array of strings.
pub open spec fn string_list_of(v: JsonView, what: Seq<char>) -> Result<
    Seq<Seq<char>>,
    Seq<char>,
> {
    match v {
        JsonView::Array(items) => if forall|i: int|
            0 <= i < items.len() ==> (#[trigger] items[i]) is Text {
            Ok(Seq::new(items.len(), |i: int| items[i]->Text_0))
        } else {
            Err(what + " must be an array of strings"@)
        },
        _ => Err(what + " must be an array of strings"@),
    }
}

/// The scopes of the section `scopes`, in the order they are given, behind those in `before`.
pub open spec fn scopes_of(
    members: Seq<(Seq<char>, JsonView)>,
    before: Seq<(Seq<char>, Map<Seq<char>, Seq<char>>)>,
) -> Result<Seq<(Seq<char>, Map<Seq<char>, Seq<char>>)>, Seq<char>>
    decreases members.len(),
{
    if members.len() == 0 {
        Ok(before)
    } else if members[0].0.len() == 0 {
        Err("configureLoader: a scope key must not be empty"@)
    } else {
        match string_map_of(
            members[0].1,
            "configureLoader: scope '"@ + members[0].0 + "'"@,
        ) {
            Ok(m) => scopes_of(members.drop_first(), before.push((members[0].0, m))),
            Err(e) => Err(e),
        }
    }
}

/// The sections of an import map, read over what `before` holds. Scopes are in given order here.
pub open spec fn sections_of(
    members: Seq<(Seq<char>, JsonView)>,
    before: ImportMapView,
) -> Result<ImportMapView, Seq<char>>
    decreases members.len(),
{
    if members.len() == 0 {
        Ok(before)
    } else if members[0].0 == "imports"@ {
        match string_map_of(members[0].1, "configureLoader: importMap.imports"@) {
            Ok(m) => sections_of(
                members.drop_first(),
                ImportMapView { imports: m, scopes: before.scopes },
            ),
            Err(e) => Err(e),
        }
    } else if members[0].0 == "scopes"@ {
        match members[0].1 {
            JsonView::Object(scopes) => match scopes_of(scopes, before.scopes) {
                Ok(s) => sections_of(
                    members.drop_first(),
                    ImportMapView { imports: before.imports, scopes: s },
                ),
                Err(e) => Err(e),
            },
            _ => Err("configureLoader: importMap.scopes must be an object"@),
        }
    } else {
        Err(
            "configureLoader: unsupported import-map section '"@ + members[0].0
                + "'; only \"imports\" and \"scopes\" are supported"@,
        )
    }
}

/// The section `importMap`.
pub open spec fn import_map_of(v: JsonView) -> Result<ImportMapView, Seq<char>> {
    match v {
        JsonView::Object(members) => match sections_of(members, unconfigured().import_map) {
            Ok(m) => Ok(
                ImportMapView {
                    imports: m.imports,
                    scopes: order::sort_by(m.scopes, by_scope()),
                },
            ),
            Err(e) => Err(e),
        },
        _ => Err("configureLoader: importMap must be an object"@),
    }
}

/// One list of the section `canonicalization`; empty when it is not given.
pub open spec fn canonicalization_list_of(
    members: Seq<(Seq<char>, JsonView)>,
    key: Seq<char>,
) -> Result<Seq<Seq<char>>, Seq<char>> {
    match json::member(members, key) {
        None => Ok(Seq::empty()),
        Some(v) => string_list_of(v, "configureLoader: canonicalization."@ + key),
    }
}

/// The section `canonicalization`.
pub open spec fn canonicalization_of(v: JsonView) -> Result<CanonicalizationView, Seq<char>> {
    match v {
        JsonView::Object(members) => match canonicalization_list_of(members, "stripParams"@) {
            Err(e) => Err(e),
            Ok(strip_params) => match canonicalization_list_of(members, "forPathPrefixes"@) {
                Err(e) => Err(e),
                Ok(dev_path_prefixes) => match canonicalization_list_of(
                    members,
                    "preserveQueryFor"@,
                ) {
                    Err(e) => Err(e),
                    Ok(preserve_query_for) => Ok(
                        CanonicalizationView {
                            strip_params,
                            dev_path_prefixes,
                            preserve_query_for,
                        },
                    ),
                },
            },
        },
        _ => Err("configureLoader: canonicalization must be an object"@),
    }
}

/// The options there are.
pub open spec fn known_option(key: Seq<char>) -> bool {
    key == "importMap"@ || key == "volatilePatterns"@ || key == "canonicalization"@
}

/// The complaint about the first unknown option.
pub open spec fn unknown_option(members: Seq<(Seq<char>, JsonView)>) -> Option<Seq<char>>
    decreases members.len(),
{
    if members.len() == 0 {
        None
    } else if !known_option(members[0].0) {
        Some("configureLoader: unknown option '"@ + members[0].0 + "'"@)
    } else {
        unknown_option(members.drop_first())
    }
}

/// The configuration that a value writes, or the complaint about it. Options are checked by name
/// first, then section by section.
pub open spec fn config_of(v: JsonView) -> Result<ConfigView, Seq<char>> {
    match v {
        JsonView::Object(members) => match unknown_option(members) {
            Some(e) => Err(e),
            None => match option_of(json::member(members, "importMap"@), |v: JsonView| import_map_of(v)) {
                Err(e) => Err(e),
                Ok(import_map) => match option_of(
                    json::member(members, "volatilePatterns"@),
                    |v: JsonView| string_list_of(v, "configureLoader: volatilePatterns"@),
                ) {
                    Err(e) => Err(e),
                    Ok(volatile_patterns) => match option_of(
                        json::member(members, "canonicalization"@),
                        |v: JsonView| canonicalization_of(v),
                    ) {
                        Err(e) => Err(e),
                        Ok(canonicalization) => Ok(
                            ConfigView { import_map, volatile_patterns, canonicalization },
                        ),
                    },
                },
            },
        },
        _ => Err("configureLoader expects a config object"@),
    }
}

/// Reads a section where it is given.
pub open spec fn option_of<T>(
    v: Option<JsonView>,
    read: spec_fn(JsonView) -> Result<T, Seq<char>>,
) -> Result<Option<T>, Seq<char>> {
    match v {
        None => Ok(None),
        Some(v) => match read(v) {
            Ok(t) => Ok(Some(t)),
            Err(e) => Err(e),
        },
    }
}

/// The vocabulary after a configuration: a given section replaces its state, another stays.
pub open spec fn configured(before: VocabularyView, config: ConfigView) -> VocabularyView {
    VocabularyView {
        import_map: match config.import_map {
            Some(m) => m,
            None => before.import_map,
        },
        volatile_patterns: match config.volatile_patterns {
            Some(p) => p,
            None => before.volatile_patterns,
        },
        canonicalization: match config.canonicalization {
            Some(c) => Some(c),
            None => before.canonicalization,
        },
    }
}

/// Whether an outcome is the one stated: the same view, or the same complaint.
pub open spec fn same_error<T, V>(r: Result<T, String>, s: Result<V, Seq<char>>) -> bool {
    match r {
        Ok(_) => s is Ok,
        Err(e) => s == Err::<V, Seq<char>>(e@),
    }
}

/// An object of strings.
pub fn string_map(value: &Json, what: &str) -> (r: Result<Entries, String>)
    ensures
        same_error(r, string_map_of(value.view(), what@)),
        r matches Ok(m) ==> string_map_of(value.view(), what@) == Ok::<
            Map<Seq<char>, Seq<char>>,
            Seq<char>,
        >(m@),
{
    proof {
        json::lemma_views(*value);
    }
    match value {
        Json::Object(members) => {
            let ghost all = json::views(members@);
            let mut out = Entries::new();
            let ghost mut pairs: Seq<(Seq<char>, Seq<char>)> = Seq::empty();
            for i in 0..members.len()
                invariant
                    value.view() == JsonView::Object(all),
                    all == json::views(members@),
                    text_pairs(all.take(i as int), what@) == Ok::<
                        Seq<(Seq<char>, Seq<char>)>,
                        Seq<char>,
                    >(pairs),
                    out@ == text_map::pairs_map(pairs),
            {
                assert(all.take(i + 1).drop_last() == all.take(i as int));
                match &members[i].1 {
                    Json::Text(s) => {
                        out.set(members[i].0.clone(), s.clone());
                        proof {
                            let pair = (all[i as int].0, s@);
                            assert(pairs.push(pair).drop_last() == pairs);
                            pairs = pairs.push(pair);
                        }
                    },
                    _ => {
                        proof {
                            lemma_text_pairs_stop(all, i + 1, what@);
                        }
                        return Err(
                            text::concat3(
                                text::concat2(what, ": the value for '").as_str(),
                                members[i].0.as_str(),
                                "' must be a string",
                            ),
                        );
                    },
                }
            }
            assert(all.take(all.len() as int) == all);
            Ok(out)
        },
        _ => Err(text::concat2(what, " must be an object")),
    }
}

/// A complaint about a prefix is the complaint about the whole.
proof fn lemma_text_pairs_stop(members: Seq<(Seq<char>, JsonView)>, n: int, what: Seq<char>)
    requires
        0 <= n <= members.len(),
        text_pairs(members.take(n), what) is Err,
    ensures
        text_pairs(members, what) == text_pairs(members.take(n), what),
    decreases members.len(),
{
    if n == members.len() {
        assert(members.take(n) == members);
    } else {
        assert(members.drop_last().take(n) == members.take(n));
        lemma_text_pairs_stop(members.drop_last(), n, what);
    }
}

/// An array of strings.
pub fn string_list(value: &Json, what: &str) -> (r: Result<Vec<String>, String>)
    ensures
        same_error(r, string_list_of(value.view(), what@)),
        r matches Ok(l) ==> string_list_of(value.view(), what@) == Ok::<
            Seq<Seq<char>>,
            Seq<char>,
        >(text::texts(l@)),
{
    match value {
        Json::Array(items) => {
            let ghost all = value.view()->Array_0;
            let mut out: Vec<String> = Vec::new();
            for i in 0..items.len()
                invariant
                    *value == Json::Array(*items),
                    all == value.view()->Array_0,
                    out@.len() == i,
                    forall|j: int|
                        0 <= j < i ==> (#[trigger] all[j]) == JsonView::Text(out@[j]@),
            {
                assert(all[i as int] == items@[i as int].view());
                match &items[i] {
                    Json::Text(s) => out.push(s.clone()),
                    _ => {
                        assert(!(all[i as int] is Text));
                        return Err(text::concat2(what, " must be an array of strings"));
                    },
                }
            }
            proof {
                assert(text::texts(out@) =~= Seq::new(all.len(), |i: int| all[i]->Text_0)) by {
                    assert forall|i: int| 0 <= i < all.len() implies text::texts(out@)[i]
                        == all[i]->Text_0 by {
                        assert(all[i] == JsonView::Text(out@[i]@));
                    }
                }
            }
            Ok(out)
        },
        _ => Err(text::concat2(what, " must be an array of strings")),
    }
}

/// Whether the scope prefix `a` comes no later than `b`.
fn scope_in_order(a: &str, b: &str) -> (r: bool)
    ensures
        r == scope_le(a@, b@),
{
    let m: usize = text::byte_len_of(a);
    let n: usize = text::byte_len_of(b);
    m > n || (m == n && order::text_in_order(&text::chars_of(b), &text::chars_of(a)))
}

/// Puts the scopes in order, the most specific first.
fn sort_scopes(scopes: &mut Vec<(String, Entries)>)
    ensures
        scope_views(final(scopes)@) == order::sort_by(scope_views(old(scopes)@), by_scope()),
{
    let ghost all = scope_views(scopes@);
    let n: usize = scopes.len();
    assert(all.skip(0) == all);
    for i in 0..n
        invariant
            n == all.len(),
            scopes@.len() == n,
            order::sort_by(all.take(i as int), by_scope()).len() == i,
            scope_views(scopes@) == order::sort_by(all.take(i as int), by_scope()) + all.skip(
                i as int,
            ),
    {
        let ghost done = order::sort_by(all.take(i as int), by_scope());
        let ghost before = scopes@;
        assert(scope_views(before)[i as int] == all[i as int]);
        let x = scopes.remove(i);
        let mut k: usize = i;
        while k > 0 && !scope_in_order(scopes[k - 1].0.as_str(), x.0.as_str())
            invariant
                k <= i < n,
                scopes@.len() == n - 1,
                forall|j: int| k <= j < i ==> !scope_le((#[trigger] scopes@[j]).0@, x.0@),
            decreases k,
        {
            k = k - 1;
        }
        proof {
            assert forall|j: int| 0 <= j < i implies #[trigger] done[j] == (
                scopes@[j].0@,
                scopes@[j].1@,
            ) by {
                assert(scope_views(before)[j] == done[j]);
            }
            assert forall|j: int| k <= j < done.len() implies !by_scope()(
                #[trigger] done[j],
                all[i as int],
            ) by {
                assert(!scope_le(scopes@[j].0@, x.0@));
            }
            if k > 0 {
                assert(done[k - 1].0 == scopes@[k - 1].0@);
            }
            order::lemma_insert_at(done, all[i as int], by_scope(), k as int);
            assert(all.take(i + 1).drop_last() == all.take(i as int));
        }
        scopes.insert(k, x);
        proof {
            let now = order::sort_by(all.take(i + 1), by_scope());
            assert(now == done.insert(k as int, all[i as int]));
            assert forall|j: int| 0 <= j < n implies #[trigger] scope_views(scopes@)[j] == (now
                + all.skip(i + 1))[j] by {
                if j > i {
                    assert(scope_views(before)[j] == all[j]);
                }
            }
            assert(scope_views(scopes@) =~= now + all.skip(i + 1));
        }
    }
    proof {
        assert(all.take(n as int) == all);
        assert(order::sort_by(all, by_scope()) + all.skip(n as int) == order::sort_by(
            all,
            by_scope(),
        ));
    }
}

/// Reads the section `scopes` into `scopes`, behind what is there.
fn read_scopes(members: &Vec<(String, Json)>, scopes: &mut Vec<(String, Entries)>) -> (r: Result<
    (),
    String,
>)
    ensures
        same_error(r, scopes_of(json::views(members@), scope_views(old(scopes)@))),
        r is Ok ==> scopes_of(json::views(members@), scope_views(old(scopes)@)) == Ok::<
            Seq<(Seq<char>, Map<Seq<char>, Seq<char>>)>,
            Seq<char>,
        >(scope_views(final(scopes)@)),
{
    let ghost all = json::views(members@);
    let ghost start = scope_views(scopes@);
    assert(all.skip(0) == all);
    for i in 0..members.len()
        invariant
            all == json::views(members@),
            start == scope_views(old(scopes)@),
            scopes_of(all, start) == scopes_of(all.skip(i as int), scope_views(scopes@)),
    {
        let ghost rest = all.skip(i as int);
        assert(rest.drop_first() == all.skip(i + 1));
        let (prefix, value) = &members[i];
        let len: usize = text::chars_of(prefix.as_str()).len();
        if len == 0 {
            return Err("configureLoader: a scope key must not be empty".to_owned());
        }
        let what = text::concat3("configureLoader: scope '", prefix.as_str(), "'");
        match string_map(value, what.as_str()) {
            Ok(entries) => {
                let ghost before = scopes@;
                scopes.push((prefix.clone(), entries));
                assert(scope_views(scopes@) =~= scope_views(before).push((prefix@, entries@)));
            },
            Err(e) => {
                return Err(e);
            },
        }
    }
    Ok(())
}

/// Reads the section `importMap`.
fn read_import_map(value: &Json) -> (r: Result<ImportMap, String>)
    ensures
        same_error(r, import_map_of(value.view())),
        r matches Ok(m) ==> import_map_of(value.view()) == Ok::<ImportMapView, Seq<char>>(m@),
{
    proof {
        json::lemma_views(*value);
    }
    match value {
        Json::Object(members) => {
            let ghost all = json::views(members@);
            let mut parsed = ImportMap { imports: Entries::new(), scopes: Vec::new() };
            assert(parsed@.scopes =~= unconfigured().import_map.scopes);
            assert(all.skip(0) == all);
            for i in 0..members.len()
                invariant
                    all == json::views(members@),
                    value.view() == JsonView::Object(all),
                    sections_of(all, unconfigured().import_map) == sections_of(
                        all.skip(i as int),
                        parsed@,
                    ),
            {
                assert(all.skip(i as int).drop_first() == all.skip(i + 1));
                let (section, content) = &members[i];
                proof {
                    json::lemma_views(*content);
                }
                if text::same_text(section.as_str(), "imports") {
                    match string_map(content, "configureLoader: importMap.imports") {
                        Ok(m) => {
                            parsed.imports = m;
                        },
                        Err(e) => {
                            return Err(e);
                        },
                    }
                } else if text::same_text(section.as_str(), "scopes") {
                    match content {
                        Json::Object(scopes) => {
                            match read_scopes(scopes, &mut parsed.scopes) {
                                Ok(()) => {},
                                Err(e) => {
                                    return Err(e);
                                },
                            }
                        },
                        _ => {
                            return Err(
                                "configureLoader: importMap.scopes must be an object".to_owned(),
                            );
                        },
                    }
                } else {
                    return Err(
                        text::concat3(
                            "configureLoader: unsupported import-map section '",
                            section.as_str(),
                            "'; only \"imports\" and \"scopes\" are supported",
                        ),
                    );
                }
            }
            sort_scopes(&mut parsed.scopes);
            Ok(parsed)
        },
        _ => Err("configureLoader: importMap must be an object".to_owned()),
    }
}

/// Reads one list of the section `canonicalization`.
fn read_canonicalization_list(members: &Vec<(String, Json)>, key: &str) -> (r: Result<
    Vec<String>,
    String,
>)
    ensures
        same_error(r, canonicalization_list_of(json::views(members@), key@)),
        r matches Ok(l) ==> canonicalization_list_of(json::views(members@), key@) == Ok::<
            Seq<Seq<char>>,
            Seq<char>,
        >(text::texts(l@)),
{
    match json::find_member(members, key) {
        None => {
            let none: Vec<String> = Vec::new();
            assert(text::texts(none@) =~= Seq::<Seq<char>>::empty());
            Ok(none)
        },
        Some(v) => string_list(v, text::concat2("configureLoader: canonicalization.", key).as_str()),
    }
}

/// Reads the section `canonicalization`.
fn read_canonicalization(value: &Json) -> (r: Result<Canonicalization, String>)
    ensures
        same_error(r, canonicalization_of(value.view())),
        r matches Ok(c) ==> canonicalization_of(value.view()) == Ok::<
            CanonicalizationView,
            Seq<char>,
        >(c@),
{
    proof {
        json::lemma_views(*value);
    }
    match value {
        Json::Object(members) => {
            let strip_params = match read_canonicalization_list(members, "stripParams") {
                Ok(l) => l,
                Err(e) => {
                    return Err(e);
                },
            };
            let dev_path_prefixes = match read_canonicalization_list(members, "forPathPrefixes") {
                Ok(l) => l,
                Err(e) => {
                    return Err(e);
                },
            };
            let preserve_query_for = match read_canonicalization_list(
                members,
                "preserveQueryFor",
            ) {
                Ok(l) => l,
                Err(e) => {
                    return Err(e);
                },
            };
            Ok(Canonicalization { strip_params, dev_path_prefixes, preserve_query_for })
        },
        _ => Err("configureLoader: canonicalization must be an object".to_owned()),
    }
}

/// The complaint about the first option that there is none of.
fn find_unknown_option(members: &Vec<(String, Json)>) -> (r: Option<String>)
    ensures
        match r {
            Some(e) => unknown_option(json::views(members@)) == Some(e@),
            None => unknown_option(json::views(members@)) is None,
        },
{
    let ghost all = json::views(members@);
    assert(all.skip(0) == all);
    for i in 0..members.len()
        invariant
            all == json::views(members@),
            unknown_option(all) == unknown_option(all.skip(i as int)),
    {
        assert(all.skip(i as int).drop_first() == all.skip(i + 1));
        let key = members[i].0.as_str();
        if !text::same_text(key, "importMap") && !text::same_text(key, "volatilePatterns")
            && !text::same_text(key, "canonicalization") {
            return Some(text::concat3("configureLoader: unknown option '", key, "'"));
        }
    }
    None
}

/// Reads and checks a whole configuration.
pub fn read_config(config: &Json) -> (r: Result<LoaderConfig, String>)
    ensures
        same_error(r, config_of(config.view())),
        r matches Ok(c) ==> config_of(config.view()) == Ok::<ConfigView, Seq<char>>(c@),
{
    proof {
        json::lemma_views(*config);
    }
    let members = match config {
        Json::Object(members) => members,
        _ => {
            return Err("configureLoader expects a config object".to_owned());
        },
    };
    match find_unknown_option(members) {
        Some(e) => {
            return Err(e);
        },
        None => {},
    }
    let import_map = match json::find_member(members, "importMap") {
        None => None,
        Some(v) => match read_import_map(v) {
            Ok(m) => Some(m),
            Err(e) => {
                return Err(e);
            },
        },
    };
    let volatile_patterns = match json::find_member(members, "volatilePatterns") {
        None => None,
        Some(v) => match string_list(v, "configureLoader: volatilePatterns") {
            Ok(l) => Some(l),
            Err(e) => {
                return Err(e);
            },
        },
    };
    let canonicalization = match json::find_member(members, "canonicalization") {
        None => None,
        Some(v) => match read_canonicalization(v) {
            Ok(c) => Some(c),
            Err(e) => {
                return Err(e);
            },
        },
    };
    Ok(LoaderConfig { import_map, volatile_patterns, canonicalization })
}

impl LoaderVocabulary {
    /// A vocabulary that nothing has configured.
    pub fn new() -> (r: LoaderVocabulary)
        ensures
            r@ == unconfigured(),
    {
        let r = LoaderVocabulary {
            import_map: ImportMap { imports: Entries::new(), scopes: Vec::new() },
            volatile_patterns: Vec::new(),
            canonicalization: None,
        };
        assert(r@.import_map.scopes =~= unconfigured().import_map.scopes);
        assert(r@.volatile_patterns =~= unconfigured().volatile_patterns);
        r
    }

    /// Puts a checked configuration in force.
    pub fn apply(&mut self, config: LoaderConfig)
        ensures
            final(self)@ == configured(old(self)@, config@),
    {
        match config.import_map {
            Some(m) => {
                self.import_map = m;
            },
            None => {},
        }
        match config.volatile_patterns {
            Some(p) => {
                self.volatile_patterns = p;
            },
            None => {},
        }
        match config.canonicalization {
            Some(c) => {
                self.canonicalization = Some(c);
            },
            None => {},
        }
    }
}

/// The outcome of a configuration given as JSON text, once the text is read: the configuration, or
/// the complaint.
pub open spec fn parsed_config(parsed: Result<JsonView, Seq<char>>) -> Result<
    ConfigView,
    Seq<char>,
> {
    match parsed {
        Err(e) => Err("configureLoader: invalid config: "@ + e),
        Ok(v) => config_of(v),
    }
}

/// `configureLoader(config)`, the config already parsed or refused by the parser.
pub fn configure_parsed(
    vocabulary: &mut LoaderVocabulary,
    parsed: Result<Json, String>,
) -> (r: Result<(), String>)
    ensures
        ({
            let outcome = parsed_config(
                match parsed {
                    Ok(v) => Ok(v.view()),
                    Err(e) => Err(e@),
                },
            );
            &&& same_error(r, outcome)
            &&& r is Ok ==> final(vocabulary)@ == configured(old(vocabulary)@, outcome->Ok_0)
            &&& r is Err ==> *final(vocabulary) == *old(vocabulary)
        }),
{
    match parsed {
        Err(e) => Err(text::concat2("configureLoader: invalid config: ", e.as_str())),
        Ok(v) => match read_config(&v) {
            Ok(config) => {
                vocabulary.apply(config);
                Ok(())
            },
            Err(e) => Err(e),
        },
    }
}

/// `configureLoader(config)`, given the config as JSON. Every section is checked before any is
/// applied, so a rejected call leaves the vocabulary untouched. A section that is present replaces
/// its state wholesale; an absent one is left alone.
pub fn configure_loader(vocabulary: &mut LoaderVocabulary, json: &str) -> (r: Result<(), String>)
    ensures
        same_error(r, parsed_config(json::json_of(json@))),
        r is Ok ==> final(vocabulary)@ == configured(
            old(vocabulary)@,
            parsed_config(json::json_of(json@))->Ok_0,
        ),
        r is Err ==> *final(vocabulary) == *old(vocabulary),
{
    configure_parsed(vocabulary, json::parse(json))
}

/// Forgets everything configured.
pub fn clear_thread_vocabulary(vocabulary: &mut LoaderVocabulary)
    ensures
        final(vocabulary)@ == unconfigured(),
{
    *vocabulary = LoaderVocabulary::new();
}

/// Configuring the same again changes nothing.
pub proof fn law_configuring_again_changes_nothing(before: VocabularyView, config: ConfigView)
    ensures
        configured(configured(before, config), config) == configured(before, config),
{
}

/// A section that the later of two configurations gives is as if the earlier had not been; a section
/// that it does not give is as the earlier left it.
pub proof fn law_later_sections_replace_earlier_ones(
    before: VocabularyView,
    earlier: ConfigView,
    later: ConfigView,
)
    ensures
        ({
            let after = configured(configured(before, earlier), later);
            &&& later.import_map is Some ==> after.import_map == configured(before, later).import_map
            &&& later.import_map is None ==> after.import_map == configured(
                before,
                earlier,
            ).import_map
            &&& later.volatile_patterns is Some ==> after.volatile_patterns == configured(
                before,
                later,
            ).volatile_patterns
            &&& later.volatile_patterns is None ==> after.volatile_patterns == configured(
                before,
                earlier,
            ).volatile_patterns
            &&& later.canonicalization is Some ==> after.canonicalization == configured(
                before,
                later,
            ).canonicalization
            &&& later.canonicalization is None ==> after.canonicalization == configured(
                before,
                earlier,
            ).canonicalization
        }),
{
}

/// An object of strings reads as a map: every value must be a string, and of a repeated key the last
/// counts. The first value that is no string is named.
#[verifier::rlimit(40)]
pub proof fn law_string_maps_hold_strings(v: JsonView, what: Seq<char>)
    ensures
        !(v is Object) ==> string_map_of(v, what) == Err::<Map<Seq<char>, Seq<char>>, Seq<char>>(
            what + " must be an object"@,
        ),
        v matches JsonView::Object(members) ==> ({
            &&& string_map_of(v, what) is Ok <==> forall|i: int|
                0 <= i < members.len() ==> (#[trigger] members[i]).1 is Text
            &&& string_map_of(v, what) matches Ok(m) ==> forall|k: Seq<char>|
                {
                    &&& #[trigger] m.contains_key(k) <==> exists|i: int|
                        0 <= i < members.len() && (#[trigger] members[i]).0 == k
                    &&& m.contains_key(k) ==> exists|i: int|
                        0 <= i < members.len() && #[trigger] members[i] == (
                            k,
                            JsonView::Text(m[k]),
                        ) && forall|j: int| i < j < members.len() ==> (#[trigger] members[j]).0 != k
                }
            &&& string_map_of(v, what) matches Err(e) ==> exists|i: int|
                0 <= i < members.len() && !((#[trigger] members[i]).1 is Text) && e == what
                    + ": the value for '"@ + members[i].0 + "' must be a string"@ && forall|j: int|
                    0 <= j < i ==> (#[trigger] members[j]).1 is Text
        }),
{
    if let JsonView::Object(members) = v {
        lemma_text_pairs(members, what);
        if let Ok(pairs) = text_pairs(members, what) {
            let m = text_map::pairs_map(pairs);
            assert forall|k: Seq<char>|
                {
                    &&& #[trigger] m.contains_key(k) <==> exists|i: int|
                        0 <= i < members.len() && (#[trigger] members[i]).0 == k
                    &&& m.contains_key(k) ==> exists|i: int|
                        0 <= i < members.len() && #[trigger] members[i] == (
                            k,
                            JsonView::Text(m[k]),
                        ) && forall|j: int| i < j < members.len() ==> (#[trigger] members[j]).0 != k
                } by {
                text_map::law_the_last_pair_counts(pairs, k);
                if m.contains_key(k) {
                    let i = choose|i: int|
                        0 <= i < pairs.len() && #[trigger] pairs[i] == (k, m[k]) && forall|j: int|
                            i < j < pairs.len() ==> (#[trigger] pairs[j]).0 != k;
                    assert(members[i] == (k, JsonView::Text(m[k])));
                    assert forall|j: int| i < j < members.len() implies (#[trigger] members[j]).0
                        != k by {
                        assert(pairs[j].0 != k);
                    }
                }
                if exists|i: int| 0 <= i < members.len() && (#[trigger] members[i]).0 == k {
                    let i = choose|i: int|
                        0 <= i < members.len() && (#[trigger] members[i]).0 == k;
                    assert(pairs[i].0 == k);
                }
            }
        }
    }
}

#[verifier::rlimit(40)]
proof fn lemma_text_pairs(members: Seq<(Seq<char>, JsonView)>, what: Seq<char>)
    ensures
        text_pairs(members, what) is Ok <==> forall|i: int|
            0 <= i < members.len() ==> (#[trigger] members[i]).1 is Text,
        text_pairs(members, what) matches Ok(pairs) ==> pairs.len() == members.len() && forall|i: int|
            0 <= i < members.len() ==> (#[trigger] members[i]) == (
                pairs[i].0,
                JsonView::Text(pairs[i].1),
            ),
        text_pairs(members, what) matches Err(e) ==> exists|i: int|
            0 <= i < members.len() && !((#[trigger] members[i]).1 is Text) && e == what
                + ": the value for '"@ + members[i].0 + "' must be a string"@ && forall|j: int|
                0 <= j < i ==> (#[trigger] members[j]).1 is Text,
    decreases members.len(),
{
    if members.len() > 0 {
        let d = members.drop_last();
        lemma_text_pairs(d, what);
        assert forall|j: int| 0 <= j < d.len() implies #[trigger] members[j] == d[j] by {}
        let last = members.len() - 1;
        match text_pairs(d, what) {
            Err(e) => {
                let i = choose|i: int|
                    0 <= i < d.len() && !((#[trigger] d[i]).1 is Text) && e == what
                        + ": the value for '"@ + d[i].0 + "' must be a string"@ && forall|j: int|
                        0 <= j < i ==> (#[trigger] d[j]).1 is Text;
                assert(!(members[i].1 is Text));
                assert forall|j: int| 0 <= j < i implies (#[trigger] members[j]).1 is Text by {
                    assert(d[j].1 is Text);
                }
            },
            Ok(pairs) => {
                assert forall|j: int| 0 <= j < d.len() implies (#[trigger] members[j]).1 is Text by {
                    assert(d[j].1 is Text);
                }
                assert forall|j: int|
                    0 <= j < members.len() && members[last].1 is Text implies (
                #[trigger] members[j]) == (
                    text_pairs(members, what)->Ok_0[j].0,
                    JsonView::Text(text_pairs(members, what)->Ok_0[j].1),
                ) by {
                    if j < d.len() {
                        assert(d[j] == (pairs[j].0, JsonView::Text(pairs[j].1)));
                    }
                }
                assert(!(members[last].1 is Text) ==> text_pairs(members, what) is Err);
            },
        }
    }
}

/// A list of strings is an array of nothing else.
pub proof fn law_string_lists_hold_strings(v: JsonView, what: Seq<char>)
    ensures
        (v matches JsonView::Array(items) && forall|i: int|
            0 <= i < items.len() ==> (#[trigger] items[i]) is Text) <==> string_list_of(v, what) is Ok,
        string_list_of(v, what) matches Ok(list) ==> (v matches JsonView::Array(items) && list.len()
            == items.len() && forall|i: int|
            0 <= i < items.len() ==> (#[trigger] items[i]) == JsonView::Text(list[i])),
        string_list_of(v, what) matches Err(e) ==> e == what + " must be an array of strings"@,
{
}

/// Scopes are read in order behind those read before: every scope needs a name and a map of strings,
/// and the first that lacks one is the error.
#[verifier::rlimit(40)]
pub proof fn law_scopes_need_a_name_and_a_map(
    members: Seq<(Seq<char>, JsonView)>,
    before: Seq<(Seq<char>, Map<Seq<char>, Seq<char>>)>,
)
    ensures
        scopes_of(members, before) matches Ok(s) ==> s.len() == before.len() + members.len()
            && s.take(before.len() as int) == before && forall|i: int|
            0 <= i < members.len() ==> (#[trigger] members[i]).0.len() > 0 && s[before.len() + i].0
                == members[i].0 && string_map_of(
                members[i].1,
                "configureLoader: scope '"@ + members[i].0 + "'"@,
            ) == Ok::<Map<Seq<char>, Seq<char>>, Seq<char>>(s[before.len() + i].1),
        scopes_of(members, before) matches Err(e) ==> exists|i: int|
            0 <= i < members.len() && (if (#[trigger] members[i]).0.len() == 0 {
                e == "configureLoader: a scope key must not be empty"@
            } else {
                string_map_of(members[i].1, "configureLoader: scope '"@ + members[i].0 + "'"@)
                    == Err::<Map<Seq<char>, Seq<char>>, Seq<char>>(e)
            }) && forall|j: int|
                0 <= j < i ==> (#[trigger] members[j]).0.len() > 0 && string_map_of(
                    members[j].1,
                    "configureLoader: scope '"@ + members[j].0 + "'"@,
                ) is Ok,
    decreases members.len(),
{
    if members.len() == 0 {
        assert(before.take(before.len() as int) =~= before);
    } else if members[0].0.len() == 0 {
    } else {
        let what = "configureLoader: scope '"@ + members[0].0 + "'"@;
        match string_map_of(members[0].1, what) {
            Err(e) => {
                assert(0 <= 0 < members.len());
            },
            Ok(m) => {
                let rest = members.drop_first();
                let now = before.push((members[0].0, m));
                law_scopes_need_a_name_and_a_map(rest, now);
                assert forall|j: int| 0 < j < members.len() implies #[trigger] members[j] == rest[j
                    - 1] by {}
                match scopes_of(rest, now) {
                    Ok(s) => {
                        assert(s.take(before.len() as int) =~= s.take(now.len() as int).take(
                            before.len() as int,
                        ));
                        assert(now.take(before.len() as int) =~= before);
                        assert(s[before.len() as int] == s.take(now.len() as int)[before.len() as int]);
                        assert forall|i: int| 0 <= i < members.len() implies (
                        #[trigger] members[i]).0.len() > 0 && s[before.len() + i].0 == members[i].0
                            && string_map_of(
                            members[i].1,
                            "configureLoader: scope '"@ + members[i].0 + "'"@,
                        ) == Ok::<Map<Seq<char>, Seq<char>>, Seq<char>>(s[before.len() + i].1) by {
                            if i > 0 {
                                assert(members[i] == rest[i - 1]);
                                assert(rest[i - 1].0.len() > 0);
                            }
                        }
                    },
                    Err(e) => {
                        let i = choose|i: int|
                            0 <= i < rest.len() && (if (#[trigger] rest[i]).0.len() == 0 {
                                e == "configureLoader: a scope key must not be empty"@
                            } else {
                                string_map_of(
                                    rest[i].1,
                                    "configureLoader: scope '"@ + rest[i].0 + "'"@,
                                ) == Err::<Map<Seq<char>, Seq<char>>, Seq<char>>(e)
                            }) && forall|j: int|
                                0 <= j < i ==> (#[trigger] rest[j]).0.len() > 0 && string_map_of(
                                    rest[j].1,
                                    "configureLoader: scope '"@ + rest[j].0 + "'"@,
                                ) is Ok;
                        assert(members[i + 1] == rest[i]);
                        assert forall|j: int| 0 <= j < i + 1 implies (
                        #[trigger] members[j]).0.len() > 0 && string_map_of(
                            members[j].1,
                            "configureLoader: scope '"@ + members[j].0 + "'"@,
                        ) is Ok by {
                            if j > 0 {
                                assert(members[j] == rest[j - 1]);
                                assert(rest[j - 1].0.len() > 0);
                            }
                        }
                    },
                }
            },
        }
    }
}

/// The sections of an import map are read in turn: `imports` replaces the imports read before,
/// `scopes` adds to the scopes, and anything else is refused by name.
pub proof fn law_sections_are_read_in_turn(
    name: Seq<char>,
    v: JsonView,
    rest: Seq<(Seq<char>, JsonView)>,
    before: ImportMapView,
)
    ensures
        sections_of(Seq::empty(), before) == Ok::<ImportMapView, Seq<char>>(before),
        name == "imports"@ ==> (match string_map_of(v, "configureLoader: importMap.imports"@) {
            Ok(m) => sections_of(seq![(name, v)] + rest, before) == sections_of(
                rest,
                ImportMapView { imports: m, scopes: before.scopes },
            ),
            Err(e) => sections_of(seq![(name, v)] + rest, before) == Err::<
                ImportMapView,
                Seq<char>,
            >(e),
        }),
        name == "scopes"@ && !(v is Object) ==> sections_of(seq![(name, v)] + rest, before) == Err::<
            ImportMapView,
            Seq<char>,
        >("configureLoader: importMap.scopes must be an object"@),
        name == "scopes"@ && v is Object ==> (match scopes_of(v->Object_0, before.scopes) {
            Ok(s) => sections_of(seq![(name, v)] + rest, before) == sections_of(
                rest,
                ImportMapView { imports: before.imports, scopes: s },
            ),
            Err(e) => sections_of(seq![(name, v)] + rest, before) == Err::<
                ImportMapView,
                Seq<char>,
            >(e),
        }),
        name != "imports"@ && name != "scopes"@ ==> sections_of(seq![(name, v)] + rest, before)
            == Err::<ImportMapView, Seq<char>>(
            "configureLoader: unsupported import-map section '"@ + name
                + "'; only \"imports\" and \"scopes\" are supported"@,
        ),
{
    let members = seq![(name, v)] + rest;
    assert(members[0] == (name, v));
    assert(members.drop_first() =~= rest);
    reveal_strlit("imports");
    reveal_strlit("scopes");
    assert("imports"@.len() != "scopes"@.len());
}

/// An import map has the imports and the scopes of its sections; the scopes stand the longest prefix
/// in bytes first, and of prefixes as long the later one in code point order.
#[verifier::rlimit(40)]
pub proof fn law_import_maps_are_their_sections_sorted(v: JsonView)
    ensures
        !(v is Object) ==> import_map_of(v) == Err::<ImportMapView, Seq<char>>(
            "configureLoader: importMap must be an object"@,
        ),
        v matches JsonView::Object(members) ==> (match sections_of(
            members,
            ImportMapView { imports: Map::empty(), scopes: Seq::empty() },
        ) {
            Err(e) => import_map_of(v) == Err::<ImportMapView, Seq<char>>(e),
            Ok(raw) => import_map_of(v) matches Ok(m) && m.imports == raw.imports
                && m.scopes.to_multiset() == raw.scopes.to_multiset() && forall|i: int, j: int|
                0 <= i < j < m.scopes.len() ==> text::byte_len((#[trigger] m.scopes[i]).0)
                    > text::byte_len((#[trigger] m.scopes[j]).0) || text::byte_len(m.scopes[i].0)
                    == text::byte_len(m.scopes[j].0) && order::text_le(
                    m.scopes[j].0,
                    m.scopes[i].0,
                ),
        }),
{
    if let JsonView::Object(members) = v {
        if let Ok(raw) = sections_of(members, unconfigured().import_map) {
            let le = by_scope();
            order::lemma_text_order();
            let by_text = order::by_text();
            assert forall|a: (Seq<char>, Map<Seq<char>, Seq<char>>), b: (
                Seq<char>,
                Map<Seq<char>, Seq<char>>,
            )| #[trigger] le(a, b) || le(b, a) by {
                assert(by_text(a.0, b.0) || by_text(b.0, a.0));
            }
            assert forall|
                a: (Seq<char>, Map<Seq<char>, Seq<char>>),
                b: (Seq<char>, Map<Seq<char>, Seq<char>>),
                c: (Seq<char>, Map<Seq<char>, Seq<char>>),
            | #[trigger] le(a, b) && #[trigger] le(b, c) implies le(a, c) by {
                if text::byte_len(a.0) == text::byte_len(b.0) && text::byte_len(b.0)
                    == text::byte_len(c.0) {
                    assert(by_text(c.0, b.0) && by_text(b.0, a.0));
                    assert(by_text(c.0, a.0));
                }
            }
            order::lemma_sort_sorted(raw.scopes, le);
            order::lemma_sort_multiset(raw.scopes, le);
            let sorted = order::sort_by(raw.scopes, le);
            assert forall|i: int, j: int| 0 <= i < j < sorted.len() implies text::byte_len(
                (#[trigger] sorted[i]).0,
            ) > text::byte_len((#[trigger] sorted[j]).0) || text::byte_len(sorted[i].0)
                == text::byte_len(sorted[j].0) && order::text_le(sorted[j].0, sorted[i].0) by {
                assert(le(sorted[i], sorted[j]));
            }
        }
    }
}

/// The canonicalization is three lists of strings, `stripParams`, `forPathPrefixes` and
/// `preserveQueryFor`, each empty where it is not there; the first that is no list of strings is the
/// error.
#[verifier::rlimit(40)]
pub proof fn law_canonicalization_is_three_lists(v: JsonView)
    ensures
        !(v is Object) ==> canonicalization_of(v) == Err::<CanonicalizationView, Seq<char>>(
            "configureLoader: canonicalization must be an object"@,
        ),
        v matches JsonView::Object(members) ==> ({
            let list = |key: Seq<char>|
                if let Some(w) = json::member(members, key) {
                    string_list_of(w, "configureLoader: canonicalization."@ + key)
                } else {
                    Ok::<Seq<Seq<char>>, Seq<char>>(Seq::empty())
                };
            match (list("stripParams"@), list("forPathPrefixes"@), list("preserveQueryFor"@)) {
                (Ok(a), Ok(b), Ok(c)) => canonicalization_of(v) == Ok::<
                    CanonicalizationView,
                    Seq<char>,
                >(
                    CanonicalizationView {
                        strip_params: a,
                        dev_path_prefixes: b,
                        preserve_query_for: c,
                    },
                ),
                (Err(e), _, _) => canonicalization_of(v) == Err::<CanonicalizationView, Seq<char>>(e),
                (_, Err(e), _) => canonicalization_of(v) == Err::<CanonicalizationView, Seq<char>>(e),
                (_, _, Err(e)) => canonicalization_of(v) == Err::<CanonicalizationView, Seq<char>>(e),
            }
        }),
{
}

/// The options are `importMap`, `volatilePatterns` and `canonicalization`; the first other one is
/// named.
#[verifier::rlimit(40)]
pub proof fn law_other_options_are_refused(members: Seq<(Seq<char>, JsonView)>)
    ensures
        unknown_option(members) is None <==> forall|i: int|
            0 <= i < members.len() ==> seq![
                "importMap"@,
                "volatilePatterns"@,
                "canonicalization"@,
            ].contains((#[trigger] members[i]).0),
        unknown_option(members) matches Some(e) ==> exists|i: int|
            0 <= i < members.len() && !seq![
                "importMap"@,
                "volatilePatterns"@,
                "canonicalization"@,
            ].contains((#[trigger] members[i]).0) && e == "configureLoader: unknown option '"@
                + members[i].0 + "'"@ && forall|j: int|
                0 <= j < i ==> seq![
                    "importMap"@,
                    "volatilePatterns"@,
                    "canonicalization"@,
                ].contains((#[trigger] members[j]).0),
    decreases members.len(),
{
    let all = seq!["importMap"@, "volatilePatterns"@, "canonicalization"@];
    assert(all[0] == "importMap"@ && all[1] == "volatilePatterns"@ && all[2]
        == "canonicalization"@);
    assert forall|k: Seq<char>| #[trigger] all.contains(k) <==> known_option(k) by {
        if all.contains(k) {
            let i = all.index_of(k);
            assert(all[i] == k);
        }
    }
    if members.len() > 0 {
        let rest = members.drop_first();
        assert(all.contains(members[0].0) <==> known_option(members[0].0));
        law_other_options_are_refused(rest);
        assert forall|j: int| 0 < j < members.len() implies #[trigger] members[j] == rest[j - 1] by {}
        if known_option(members[0].0) {
            if let Some(e) = unknown_option(rest) {
                let i = choose|i: int|
                    0 <= i < rest.len() && !all.contains((#[trigger] rest[i]).0) && e
                        == "configureLoader: unknown option '"@ + rest[i].0 + "'"@ && forall|j: int|
                        0 <= j < i ==> all.contains((#[trigger] rest[j]).0);
                assert(members[i + 1] == rest[i]);
                assert forall|j: int| 0 <= j < i + 1 implies all.contains(
                    (#[trigger] members[j]).0,
                ) by {
                    if j > 0 {
                        assert(all.contains(rest[j - 1].0));
                    }
                }
            } else {
                assert forall|j: int| 0 <= j < members.len() implies all.contains(
                    (#[trigger] members[j]).0,
                ) by {
                    if j > 0 {
                        assert(all.contains(rest[j - 1].0));
                    }
                }
            }
        } else {
            assert(!all.contains(members[0].0));
        }
    }
}

/// A configuration is an object of known options; each section is there exactly where its option is,
/// as that option reads, and the first option that does not read is the error.
#[verifier::rlimit(40)]
pub proof fn law_configurations_are_their_options(v: JsonView)
    ensures
        !(v is Object) ==> config_of(v) == Err::<ConfigView, Seq<char>>(
            "configureLoader expects a config object"@,
        ),
        v matches JsonView::Object(members) ==> ({
            let map = json::member(members, "importMap"@);
            let patterns = json::member(members, "volatilePatterns"@);
            let canon = json::member(members, "canonicalization"@);
            let what = "configureLoader: volatilePatterns"@;
            &&& unknown_option(members) matches Some(e) ==> config_of(v) == Err::<
                ConfigView,
                Seq<char>,
            >(e)
            &&& config_of(v) is Ok <==> unknown_option(members) is None && (map matches Some(w)
                ==> import_map_of(w) is Ok) && (patterns matches Some(w) ==> string_list_of(
                w,
                what,
            ) is Ok) && (canon matches Some(w) ==> canonicalization_of(w) is Ok)
            &&& config_of(v) matches Ok(c) ==> {
                &&& c.import_map is Some <==> map is Some
                &&& c.volatile_patterns is Some <==> patterns is Some
                &&& c.canonicalization is Some <==> canon is Some
                &&& map matches Some(w) ==> import_map_of(w) == Ok::<ImportMapView, Seq<char>>(
                    c.import_map->Some_0,
                )
                &&& patterns matches Some(w) ==> string_list_of(w, what) == Ok::<
                    Seq<Seq<char>>,
                    Seq<char>,
                >(c.volatile_patterns->Some_0)
                &&& canon matches Some(w) ==> canonicalization_of(w) == Ok::<
                    CanonicalizationView,
                    Seq<char>,
                >(c.canonicalization->Some_0)
            }
            &&& unknown_option(members) is None && (map matches Some(w) && import_map_of(w) is Err)
                ==> config_of(v) == Err::<ConfigView, Seq<char>>(
                import_map_of(map->Some_0)->Err_0,
            )
        }),
{
}

/// A text that is no JSON is an error that says what the parser said; any other is its configuration.
pub proof fn law_unreadable_configurations_are_refused(e: Seq<char>, v: JsonView)
    ensures
        parsed_config(Err(e)) == Err::<ConfigView, Seq<char>>("configureLoader: invalid config: "@ + e),
        parsed_config(Ok(v)) == config_of(v),
{
}

/// What a configuration sets is what it says, and what it leaves out stays as it was.
pub proof fn law_configuring_sets_what_is_given(before: VocabularyView, config: ConfigView)
    ensures
        config.import_map matches Some(m) ==> configured(before, config).import_map == m,
        config.import_map is None ==> configured(before, config).import_map == before.import_map,
        config.volatile_patterns matches Some(p) ==> configured(before, config).volatile_patterns
            == p,
        config.volatile_patterns is None ==> configured(before, config).volatile_patterns
            == before.volatile_patterns,
        config.canonicalization is Some ==> configured(before, config).canonicalization
            == config.canonicalization,
        config.canonicalization is None ==> configured(before, config).canonicalization
            == before.canonicalization,
{
}

/// A vocabulary reads field by field.
pub proof fn law_vocabularies_read_field_by_field(v: LoaderVocabulary, c: Canonicalization)
    ensures
        v@.import_map.imports == v.import_map.imports@,
        v@.import_map.scopes.len() == v.import_map.scopes@.len(),
        forall|i: int|
            0 <= i < v.import_map.scopes@.len() ==> #[trigger] v@.import_map.scopes[i] == (
                v.import_map.scopes@[i].0@,
                v.import_map.scopes@[i].1@,
            ),
        v@.volatile_patterns == text::texts(v.volatile_patterns@),
        v.canonicalization is None <==> v@.canonicalization is None,
        v.canonicalization matches Some(d) ==> v@.canonicalization == Some(d@),
        c@.strip_params == text::texts(c.strip_params@),
        c@.dev_path_prefixes == text::texts(c.dev_path_prefixes@),
        c@.preserve_query_for == text::texts(c.preserve_query_for@),
{
}

/// Nothing is mapped, volatile or canonicalized before anything is configured.
pub proof fn law_unconfigured_loaders_do_nothing()
    ensures
        unconfigured().import_map.imports == Map::<Seq<char>, Seq<char>>::empty(),
        unconfigured().import_map.scopes.len() == 0,
        unconfigured().volatile_patterns.len() == 0,
        unconfigured().canonicalization is None,
{
}

/// Of the options that do not read, the import map is named before the volatile patterns, and those
/// before the canonicalization.
#[verifier::rlimit(40)]
pub proof fn law_options_are_read_in_order(members: Seq<(Seq<char>, JsonView)>)
    requires
        unknown_option(members) is None,
    ensures
        ({
            let map = json::member(members, "importMap"@);
            let patterns = json::member(members, "volatilePatterns"@);
            let canon = json::member(members, "canonicalization"@);
            let what = "configureLoader: volatilePatterns"@;
            let map_reads = map is None || import_map_of(map->Some_0) is Ok;
            let patterns_read = patterns is None || string_list_of(patterns->Some_0, what) is Ok;
            &&& !map_reads ==> config_of(JsonView::Object(members)) == Err::<ConfigView, Seq<char>>(
                import_map_of(map->Some_0)->Err_0,
            )
            &&& map_reads && !patterns_read ==> config_of(JsonView::Object(members)) == Err::<
                ConfigView,
                Seq<char>,
            >(string_list_of(patterns->Some_0, what)->Err_0)
            &&& map_reads && patterns_read && canon is Some && canonicalization_of(
                canon->Some_0,
            ) is Err ==> config_of(JsonView::Object(members)) == Err::<ConfigView, Seq<char>>(
                canonicalization_of(canon->Some_0)->Err_0,
            )
        }),
{
}

/// Import maps, configurations and errors read field by field.
pub proof fn law_configurations_read_field_by_field(
    m: ImportMap,
    c: LoaderConfig,
    r: Result<u8, String>,
    s: Result<u8, Seq<char>>,
)
    ensures
        m@.imports == m.imports@,
        m@.scopes.len() == m.scopes@.len(),
        forall|i: int|
            0 <= i < m.scopes@.len() ==> #[trigger] m@.scopes[i] == (
                m.scopes@[i].0@,
                m.scopes@[i].1@,
            ),
        c.import_map is None <==> c@.import_map is None,
        c.import_map matches Some(map) ==> c@.import_map == Some(map@),
        c.volatile_patterns is None <==> c@.volatile_patterns is None,
        c.volatile_patterns matches Some(p) ==> c@.volatile_patterns == Some(text::texts(p@)),
        c.canonicalization is None <==> c@.canonicalization is None,
        c.canonicalization matches Some(k) ==> c@.canonicalization == Some(k@),
        same_error(r, s) <==> (r is Ok <==> s is Ok) && (r matches Err(e) ==> s == Err::<
            u8,
            Seq<char>,
        >(e@)),
{
}

/// A configuration takes effect as a whole or not at all.
pub proof fn law_refused_configurations_change_nothing(
    vocabulary: &mut LoaderVocabulary,
    parsed: Result<Json, String>,
    r: Result<(), String>,
)
    requires
        call_ensures(configure_parsed, (vocabulary, parsed), r),
    ensures
        r is Err ==> *final(vocabulary) == *old(vocabulary),
        r is Ok <==> (parsed matches Ok(v) && config_of(v.view()) is Ok),
        r is Ok ==> final(vocabulary)@ == configured(
            old(vocabulary)@,
            config_of(parsed->Ok_0.view())->Ok_0,
        ),
        parsed matches Err(e) ==> (r matches Err(m) && m@ == "configureLoader: invalid config: "@
            + e@),
        parsed matches Ok(v) ==> (config_of(v.view()) matches Err(e) ==> (r matches Err(m) && m@
            == e)),
{
}

/// A loader starts with nothing configured, and is so again once it is cleared.
pub proof fn law_cleared_vocabularies_are_new(made: LoaderVocabulary, v: &mut LoaderVocabulary)
    requires
        call_ensures(LoaderVocabulary::new, (), made),
        call_ensures(clear_thread_vocabulary, (v,), ()),
    ensures
        final(v)@ == made@,
        made.import_map.imports@ == Map::<Seq<char>, Seq<char>>::empty(),
        made.import_map.scopes@.len() == 0,
        made.volatile_patterns@.len() == 0,
        made.canonicalization is None,
{
    assert(made@.import_map.scopes.len() == made.import_map.scopes@.len());
    assert(made@.volatile_patterns.len() == made.volatile_patterns@.len());
}

/// What is read from a value is what the value holds.
pub proof fn law_values_are_read_as_stated(
    value: &Json,
    what: &str,
    list: Result<Vec<String>, String>,
    map: Result<Entries, String>,
    config: Result<LoaderConfig, String>,
)
    requires
        call_ensures(string_list, (value, what), list),
        call_ensures(string_map, (value, what), map),
        call_ensures(read_config, (value,), config),
    ensures
        list is Ok <==> string_list_of(value.view(), what@) is Ok,
        list matches Ok(l) ==> string_list_of(value.view(), what@) == Ok::<
            Seq<Seq<char>>,
            Seq<char>,
        >(text::texts(l@)),
        list matches Err(e) ==> e@ == what@ + " must be an array of strings"@,
        map is Ok <==> string_map_of(value.view(), what@) is Ok,
        map matches Ok(m) ==> string_map_of(value.view(), what@) == Ok::<
            Map<Seq<char>, Seq<char>>,
            Seq<char>,
        >(m@),
        config is Ok <==> config_of(value.view()) is Ok,
        config matches Ok(c) ==> config_of(value.view()) == Ok::<ConfigView, Seq<char>>(c@),
        config matches Err(e) ==> config_of(value.view()) == Err::<ConfigView, Seq<char>>(e@),
{
}

/// A configuration that is applied sets what it gives and leaves the rest; one from a text is read
/// first, and refused as a whole where it does not read.
pub proof fn law_applied_configurations_set_what_they_give(
    v: &mut LoaderVocabulary,
    config: LoaderConfig,
)
    requires
        call_ensures(LoaderVocabulary::apply, (v, config), ()),
    ensures
        config.import_map matches Some(m) ==> final(v)@.import_map == m@,
        config.import_map is None ==> final(v)@.import_map == old(v)@.import_map,
        config.volatile_patterns matches Some(p) ==> final(v)@.volatile_patterns == text::texts(p@),
        config.volatile_patterns is None ==> final(v)@.volatile_patterns
            == old(v)@.volatile_patterns,
        config.canonicalization matches Some(c) ==> final(v)@.canonicalization == Some(c@),
        config.canonicalization is None ==> final(v)@.canonicalization == old(v)@.canonicalization,
{
}

/// A configuration from a text.
pub proof fn law_texts_configure_as_they_read(
    v: &mut LoaderVocabulary,
    json: &str,
    r: Result<(), String>,
)
    requires
        call_ensures(configure_loader, (v, json), r),
    ensures
        r is Ok <==> (json::json_of(json@) matches Ok(w) && config_of(w) is Ok),
        r is Err ==> *final(v) == *old(v),
        r is Ok ==> final(v)@ == configured(
            old(v)@,
            config_of(json::json_of(json@)->Ok_0)->Ok_0,
        ),
        json::json_of(json@) matches Err(e) ==> (r matches Err(m) && m@
            == "configureLoader: invalid config: "@ + e),
{
}

} // verus!
