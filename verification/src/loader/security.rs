//! Which remote modules the app may load.

use crate::json;
use crate::json::{Json, JsonView};
use crate::text;
use vstd::prelude::*;

verus! {

/// The release-build settings of an app: whether remote modules are allowed at all, and the URL
/// prefixes they are limited to; no prefixes allow every URL.
pub struct Settings {
    pub allow_remote_modules: bool,
    pub allowlist: Vec<String>,
}

/// The remote-module gate of a process.
pub struct Security {
    pub debug_build: bool,
    pub settings: Option<Settings>,
}

pub struct SettingsView {
    pub allow_remote_modules: bool,
    pub allowlist: Seq<Seq<char>>,
}

impl View for Settings {
    type V = SettingsView;

    open spec fn view(&self) -> SettingsView {
        SettingsView {
            allow_remote_modules: self.allow_remote_modules,
            allowlist: text::texts(self.allowlist@),
        }
    }
}

/// The member `key` of a value; null for a value that is no object or has no such member.
pub open spec fn field(v: JsonView, key: Seq<char>) -> JsonView {
    match v {
        JsonView::Object(members) => match json::member(members, key) {
            Some(m) => m,
            None => JsonView::Null,
        },
        _ => JsonView::Null,
    }
}

/// The strings among the elements of a value, in order; none for a value that is no array.
pub open spec fn strings_among(v: JsonView) -> Seq<Seq<char>> {
    match v {
        JsonView::Array(items) => strings_of(items),
        _ => Seq::empty(),
    }
}

/// The strings among `items`.
pub open spec fn strings_of(items: Seq<JsonView>) -> Seq<Seq<char>>
    decreases items.len(),
{
    if items.len() == 0 {
        Seq::empty()
    } else {
        match items.last() {
            JsonView::Text(s) => strings_of(items.drop_last()).push(s),
            _ => strings_of(items.drop_last()),
        }
    }
}

/// What a package.json settles.
pub open spec fn settings_of(package: JsonView) -> SettingsView {
    let security = field(package, "security"@);
    SettingsView {
        allow_remote_modules: field(security, "allowRemoteModules"@) == JsonView::Bool(true),
        allowlist: strings_among(field(security, "remoteModuleAllowlist"@)),
    }
}

/// What the text of a package.json settles, if there is one; a text that does not parse settles
/// what an empty one does.
pub open spec fn settings_of_text(package: Option<Seq<char>>) -> SettingsView {
    match package {
        Some(t) => match json::json_of(t) {
            Ok(v) => settings_of(v),
            Err(_) => settings_of(JsonView::Null),
        },
        None => settings_of(JsonView::Null),
    }
}

/// Whether some prefix of the list starts `url`.
pub open spec fn listed(allowlist: Seq<Seq<char>>, url: Seq<char>) -> bool {
    exists|i: int| 0 <= i < allowlist.len() && (#[trigger] allowlist[i]).is_prefix_of(url)
}

/// Whether `url` may be loaded.
pub open spec fn allowed(debug_build: bool, settings: Option<SettingsView>, url: Seq<char>) -> bool {
    debug_build || match settings {
        Some(s) => s.allow_remote_modules && (s.allowlist.len() == 0 || listed(s.allowlist, url)),
        None => false,
    }
}

/// The settings of a gate, as a view.
pub open spec fn settings_view(settings: Option<Settings>) -> Option<SettingsView> {
    match settings {
        Some(s) => Some(s@),
        None => None,
    }
}

impl Security {
    /// A release build without settings: nothing remote is allowed.
    pub fn new() -> (r: Security)
        ensures
            !r.debug_build,
            r.settings is None,
    {
        Security { debug_build: false, settings: None }
    }
}

/// Marks this as a debug (devtools) host, where dev-server modules are always allowed, or as none.
/// Set by the host before scripts run.
pub fn set_debug_build(security: &mut Security, debug: bool)
    ensures
        final(security).debug_build == debug,
        final(security).settings == old(security).settings,
{
    security.debug_build = debug;
}

/// Remote-module gate: debug hosts always allow; release builds need `security.allowRemoteModules`
/// in the app's package.json, then an allowlist match (`security.remoteModuleAllowlist` URL
/// prefixes; empty allows every URL).
pub fn remote_url_allowed(security: &Security, url: &str) -> (r: bool)
    ensures
        r == allowed(security.debug_build, settings_view(security.settings), url@),
{
    if security.debug_build {
        return true;
    }
    let settings = match &security.settings {
        Some(s) => s,
        None => {
            return false;
        },
    };
    if !settings.allow_remote_modules {
        return false;
    }
    if settings.allowlist.len() == 0 {
        return true;
    }
    let ghost list = settings@.allowlist;
    for i in 0..settings.allowlist.len()
        invariant
            list == settings@.allowlist,
            settings.allow_remote_modules,
            list.len() > 0,
            security.settings == Some(*settings),
            !security.debug_build,
            forall|j: int| 0 <= j < i ==> !(#[trigger] list[j]).is_prefix_of(url@),
    {
        assert(list[i as int] == settings.allowlist@[i as int]@);
        if text::text_starts_with(url, settings.allowlist[i].as_str()) {
            return true;
        }
    }
    false
}

/// The member `key` of a value, if it is an object that has one.
fn find_field<'a>(v: Option<&'a Json>, key: &str) -> (r: Option<&'a Json>)
    ensures
        match (v, r) {
            (Some(v), Some(m)) => field(v.view(), key@) == m.view(),
            (Some(v), None) => field(v.view(), key@) == JsonView::Null,
            (None, _) => r is None,
        },
{
    match v {
        Some(value) => {
            proof {
                json::lemma_views(*value);
            }
            match value {
                Json::Object(members) => json::find_member(members, key),
                _ => None,
            }
        },
        None => None,
    }
}

/// What a package.json settles, where there is one that could be read.
pub fn read_settings(package: Option<&Json>) -> (r: Settings)
    ensures
        r@ == settings_of(
            match package {
                Some(v) => v.view(),
                None => JsonView::Null,
            },
        ),
{
    let security = find_field(package, "security");
    let allow_remote_modules = match find_field(security, "allowRemoteModules") {
        Some(Json::Bool(b)) => *b,
        _ => false,
    };
    let mut allowlist: Vec<String> = Vec::new();
    let list = find_field(security, "remoteModuleAllowlist");
    if let Some(v) = list {
        if let Json::Array(items) = v {
            let ghost all = v.view()->Array_0;
            assert(text::texts(allowlist@) =~= strings_of(all.take(0)));
            for i in 0..items.len()
                invariant
                    *v == Json::Array(*items),
                    all == v.view()->Array_0,
                    text::texts(allowlist@) == strings_of(all.take(i as int)),
            {
                assert(all.take(i + 1).drop_last() == all.take(i as int));
                assert(all[i as int] == items@[i as int].view());
                if let Json::Text(s) = &items[i] {
                    let ghost before = allowlist@;
                    allowlist.push(s.clone());
                    assert(text::texts(allowlist@) =~= text::texts(before).push(s@));
                }
            }
            assert(all.take(all.len() as int) == all);
        }
    }
    let r = Settings { allow_remote_modules, allowlist };
    assert(r@.allowlist =~= settings_of(
        match package {
            Some(v) => v.view(),
            None => JsonView::Null,
        },
    ).allowlist);
    r
}

/// Takes the release-build settings from the text of the app's package.json, once: settings that
/// are there stay.
pub fn init_security(security: &mut Security, package: Option<&str>)
    ensures
        final(security).debug_build == old(security).debug_build,
        old(security).settings is Some ==> final(security).settings == old(security).settings,
        old(security).settings is None ==> settings_view(final(security).settings) == Some(
            settings_of_text(
                match package {
                    Some(t) => Some(t@),
                    None => None,
                },
            ),
        ),
{
    if security.settings.is_some() {
        return ;
    }
    let settings = match package {
        Some(t) => match json::parse(t) {
            Ok(v) => read_settings(Some(&v)),
            Err(_) => read_settings(None),
        },
        None => read_settings(None),
    };
    security.settings = Some(settings);
}

/// A debug host loads every URL.
pub proof fn law_debug_hosts_allow_everything(settings: Option<SettingsView>, url: Seq<char>)
    ensures
        allowed(true, settings, url),
{
}

/// A release build loads nothing remote without settings, nor where its package.json does not set
/// `security.allowRemoteModules` to true, whatever the allowlist holds.
pub proof fn law_release_builds_deny_by_default(package: JsonView, url: Seq<char>)
    requires
        field(field(package, "security"@), "allowRemoteModules"@) != JsonView::Bool(true),
    ensures
        !allowed(false, None, url),
        !allowed(false, Some(settings_of(package)), url),
{
}

/// A release build that allows remote modules loads what starts with an entry of its allowlist, and
/// every URL where the allowlist is empty.
pub proof fn law_allowlist_limits_remote_modules(settings: SettingsView, url: Seq<char>)
    requires
        settings.allow_remote_modules,
    ensures
        allowed(false, Some(settings), url) <==> settings.allowlist.len() == 0 || exists|i: int|
            0 <= i < settings.allowlist.len() && (#[trigger] settings.allowlist[i]).is_prefix_of(
                url,
            ),
{
}

/// Remote modules may be loaded by a debug build, and by a release build only where the settings
/// allow them and, if they list any prefixes, one of those starts the URL.
pub proof fn law_when_remote_modules_are_allowed(
    debug_build: bool,
    settings: Option<SettingsView>,
    url: Seq<char>,
)
    ensures
        allowed(debug_build, settings, url) <==> debug_build || (settings matches Some(s)
            && s.allow_remote_modules && (s.allowlist.len() == 0 || exists|i: int|
            0 <= i < s.allowlist.len() && (#[trigger] s.allowlist[i]).is_prefix_of(url))),
{
}

/// The settings are those under `security` in the package: remote modules are allowed by
/// `allowRemoteModules` being true, and the strings of `remoteModuleAllowlist` limit them. Whatever
/// is not there, or is not of its kind, counts as false or as no strings.
pub proof fn law_settings_stand_under_security(package: JsonView, security: JsonView)
    requires
        security == (if let JsonView::Object(top) = package {
            if let Some(v) = json::member(top, "security"@) {
                v
            } else {
                JsonView::Null
            }
        } else {
            JsonView::Null
        }),
    ensures
        settings_of(package).allow_remote_modules <==> (security matches JsonView::Object(members)
            && json::member(members, "allowRemoteModules"@) == Some(JsonView::Bool(true))),
        settings_of(package).allowlist == (if let JsonView::Object(members) = security {
            if let Some(JsonView::Array(items)) = json::member(members, "remoteModuleAllowlist"@) {
                items.filter(|v: JsonView| v is Text).map_values(|v: JsonView| v->Text_0)
            } else {
                Seq::empty()
            }
        } else {
            Seq::empty()
        }),
{
    assert(field(package, "security"@) == security);
    if let JsonView::Object(members) = security {
        if let Some(JsonView::Array(items)) = json::member(members, "remoteModuleAllowlist"@) {
            lemma_strings_filtered(items);
        }
    }
}

proof fn lemma_strings_filtered(items: Seq<JsonView>)
    ensures
        strings_of(items) == items.filter(|v: JsonView| v is Text).map_values(
            |v: JsonView| v->Text_0,
        ),
    decreases items.len(),
{
    reveal(Seq::filter);
    let keep = |v: JsonView| v is Text;
    let read = |v: JsonView| v->Text_0;
    if items.len() > 0 {
        lemma_strings_filtered(items.drop_last());
    }
    assert(strings_of(items) =~= items.filter(keep).map_values(read));
}

/// A package that cannot be read, or that is not there, has the settings of an empty one.
pub proof fn law_unreadable_packages_allow_nothing(text: Seq<char>)
    ensures
        !settings_of_text(None).allow_remote_modules,
        settings_of_text(None).allowlist.len() == 0,
        json::json_of(text) is Err ==> !settings_of_text(Some(text)).allow_remote_modules
            && settings_of_text(Some(text)).allowlist.len() == 0,
        json::json_of(text) matches Ok(v) ==> settings_of_text(Some(text)) == settings_of(v),
{
}

/// Settings read field by field.
pub proof fn law_settings_read_field_by_field(s: Settings)
    ensures
        s@.allow_remote_modules == s.allow_remote_modules,
        s@.allowlist == text::texts(s.allowlist@),
        settings_view(Some(s)) == Some(s@),
        settings_view(None) is None,
{
}

/// A URL may be loaded by a debug build, or where the settings allow remote modules and, if they list
/// any prefixes, one of those starts it; a new loader allows nothing.
pub proof fn law_remote_urls_need_permission(
    security: &Security,
    url: &str,
    r: bool,
    made: Security,
)
    requires
        call_ensures(remote_url_allowed, (security, url), r),
        call_ensures(Security::new, (), made),
    ensures
        r <==> security.debug_build || (security.settings matches Some(s) && s.allow_remote_modules
            && (s.allowlist@.len() == 0 || exists|i: int|
            0 <= i < s.allowlist@.len() && (#[trigger] s.allowlist@[i])@.is_prefix_of(url@))),
        !made.debug_build && made.settings is None,
{
    if let Some(s) = security.settings {
        let all = text::texts(s.allowlist@);
        assert forall|i: int| 0 <= i < all.len() implies #[trigger] all[i] == s.allowlist@[i]@ by {}
        if listed(all, url@) {
            let i = choose|i: int| 0 <= i < all.len() && (#[trigger] all[i]).is_prefix_of(url@);
            assert(s.allowlist@[i]@.is_prefix_of(url@));
        }
        if exists|i: int|
            0 <= i < s.allowlist@.len() && (#[trigger] s.allowlist@[i])@.is_prefix_of(url@) {
            let i = choose|i: int|
                0 <= i < s.allowlist@.len() && (#[trigger] s.allowlist@[i])@.is_prefix_of(url@);
            assert(all[i].is_prefix_of(url@));
        }
    }
}

/// The settings are read once: what was read first stays, and the kind of build is no part of them.
pub proof fn law_settings_are_read_once(security: &mut Security, package: Option<&str>)
    requires
        call_ensures(init_security, (security, package), ()),
    ensures
        old(security).settings is Some ==> final(security).settings == old(security).settings,
        final(security).settings is Some,
        final(security).debug_build == old(security).debug_build,
        old(security).settings is None && package is None ==> (final(security).settings matches Some(
            s,
        ) && !s.allow_remote_modules && s.allowlist@.len() == 0),
{
    law_unreadable_packages_allow_nothing(Seq::empty());
    if old(security).settings is None && package is None {
        let s = final(security).settings->Some_0;
        assert(s@ == settings_of_text(None));
        assert(text::texts(s.allowlist@).len() == s.allowlist@.len());
    }
}

/// Setting the kind of build changes nothing else.
pub proof fn law_build_kinds_are_set_alone(security: &mut Security, debug: bool)
    requires
        call_ensures(set_debug_build, (security, debug), ()),
    ensures
        final(security).debug_build == debug,
        final(security).settings == old(security).settings,
{
}

/// Settings are read from the package, and without one nothing is allowed.
pub proof fn law_settings_are_read_from_the_package(package: Option<&Json>, r: Settings)
    requires
        call_ensures(read_settings, (package,), r),
    ensures
        package matches Some(v) ==> r@ == settings_of(v.view()),
        package is None ==> !r.allow_remote_modules && r.allowlist@.len() == 0,
{
    if package is None {
        assert(r@ == settings_of(JsonView::Null));
        assert(r@.allowlist.len() == r.allowlist@.len());
    }
}

} // verus!
