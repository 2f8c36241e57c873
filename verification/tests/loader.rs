//! The module loader: configuration, keys, the import map, the security gate, fetching.

use runtime::json::{parse, Json};
use runtime::loader::canonical::{canonicalize_http_url_key, is_http, repair_collapsed_scheme};
use runtime::loader::fetch::{
    batches, begin_fetch, classify_response, end_fetch, gather, json_module_source, mark_keys_for_cache_bust,
    mime_essence, resume_fetch, start_fetch, Busts, FetchStep, FetchedModule, ModuleKind,
};
use runtime::loader::import_map::{is_volatile, lookup_import_map};
use runtime::loader::registry::{bust_dropped_keys, invalidation_keys, loaded_urls, removed_count};
use runtime::loader::security::{init_security, remote_url_allowed, set_debug_build, Security};
use runtime::loader::vocabulary::{clear_thread_vocabulary, configure_loader, LoaderVocabulary};
use runtime::text_set::TextSet;
use runtime::winhttp::Response;

fn busts() -> Busts {
    Busts { marks: TextSet::new(), nonce: 0, process: 42 }
}

fn response(status: u32, content_type: &str, body: &str) -> Response {
    Response { status, content_type: content_type.to_string(), body: body.as_bytes().to_vec() }
}

fn strings(items: &[&str]) -> Vec<String> {
    items.iter().map(|s| s.to_string()).collect()
}

fn debug_host() -> Security {
    let mut security = Security::new();
    set_debug_build(&mut security, true);
    security
}

fn done_error(step: FetchStep) -> String {
    match step {
        FetchStep::Done(Err(e)) => e,
        _ => panic!("expected an error"),
    }
}

fn sent(step: FetchStep) -> String {
    match step {
        FetchStep::Send(url) => url,
        _ => panic!("expected a request"),
    }
}

#[test]
fn canonical_keys_follow_the_configured_vocabulary() {
    let mut v = LoaderVocabulary::new();
    clear_thread_vocabulary(&mut v);
    // Unconfigured: only the fragment is dropped.
    assert_eq!(canonicalize_http_url_key(&v, "http://h:5173/ns/m/a.js?t=1#x"), "http://h:5173/ns/m/a.js?t=1");
    assert_eq!(canonicalize_http_url_key(&v, "http:/h:5173/ns/m/a.js"), "http://h:5173/ns/m/a.js");
    configure_loader(
        &mut v,
        r#"{"canonicalization":{"stripParams":["t","v"],"forPathPrefixes":["/ns/"],"preserveQueryFor":["/@ng/component"]}}"#,
    )
    .unwrap();
    assert_eq!(canonicalize_http_url_key(&v, "http://h/ns/m/a.js?z=2&t=9&a=1"), "http://h/ns/m/a.js?a=1&z=2");
    assert_eq!(canonicalize_http_url_key(&v, "http://h/ns/m/a.js?t=9"), "http://h/ns/m/a.js");
    assert_eq!(canonicalize_http_url_key(&v, "http://h/other/a.js?t=9"), "http://h/other/a.js?t=9");
    assert_eq!(canonicalize_http_url_key(&v, "http://h/ns/@ng/component?t=9"), "http://h/ns/@ng/component?t=9");
    assert_eq!(canonicalize_http_url_key(&v, "file://http://h/ns/m/a.js?t=1"), "http://h/ns/m/a.js");
    clear_thread_vocabulary(&mut v);
}

#[test]
fn import_map_scopes_then_imports_with_prefix_entries() {
    let mut v = LoaderVocabulary::new();
    clear_thread_vocabulary(&mut v);
    configure_loader(
        &mut v,
        r#"{"importMap":{"imports":{"@nativescript/core":"http://h/ns/core","@nativescript/core/":"http://h/ns/core/"},
            "scopes":{"http://h/ns/m/vendor/":{"@nativescript/core":"http://h/ns/vendor-core"}}}}"#,
    )
    .unwrap();
    assert_eq!(lookup_import_map(&v, "@nativescript/core", "http://h/ns/m/app.js").as_deref(), Some("http://h/ns/core"));
    assert_eq!(lookup_import_map(&v, "@nativescript/core/ui/frame", "").as_deref(), Some("http://h/ns/core/ui/frame"));
    assert_eq!(lookup_import_map(&v, "@nativescript/core", "http://h/ns/m/vendor/x.js").as_deref(), Some("http://h/ns/vendor-core"));
    assert_eq!(lookup_import_map(&v, "lodash", ""), None);
    // A rejected config leaves the previous map in place.
    assert!(configure_loader(&mut v, r#"{"importMap":{"imports":{"a":1}}}"#).is_err());
    assert!(lookup_import_map(&v, "@nativescript/core", "").is_some());
    assert!(configure_loader(&mut v, r#"{"bogus":true}"#).is_err());
    clear_thread_vocabulary(&mut v);
}

#[test]
fn schemes_are_recognised_and_repaired() {
    assert!(is_http("http://h") && is_http("https://h"));
    assert!(!is_http("http:/h") && !is_http("HTTP://h") && !is_http("file:///x"));
    assert_eq!(repair_collapsed_scheme("https:/h/a.js"), "https://h/a.js");
    assert_eq!(repair_collapsed_scheme("http://h/a.js"), "http://h/a.js");
    assert_eq!(repair_collapsed_scheme("./a.js"), "./a.js");
    assert_eq!(repair_collapsed_scheme("http:/"), "http://");
}

#[test]
fn keys_are_stable_under_canonicalization() {
    let mut v = LoaderVocabulary::new();
    configure_loader(
        &mut v,
        r#"{"canonicalization":{"stripParams":["t"],"forPathPrefixes":["/ns/"]}}"#,
    )
    .unwrap();
    for url in [
        "http://h/ns/a.js?b=2&a=1&t=9#frag",
        "file://https:/h/ns/a.js",
        "http://h",
        "http://h?q=1",
        "http://h/ns/a.js?&&",
        "./relative.js#x",
        "file:///c:/x.js#y",
    ] {
        let key = canonicalize_http_url_key(&v, url);
        assert_eq!(canonicalize_http_url_key(&v, &key), key, "{url}");
    }
    assert_eq!(canonicalize_http_url_key(&v, "http://h/ns/a.js?&&"), "http://h/ns/a.js");
    assert_eq!(canonicalize_http_url_key(&v, "http://h?q=1#z"), "http://h?q=1");
    assert_eq!(canonicalize_http_url_key(&v, "./relative.js#x"), "./relative.js#x");
    // The order of the parameters and the cache busters are no identity.
    assert_eq!(
        canonicalize_http_url_key(&v, "http://h/ns/a.js?a=1&b=2&t=5"),
        canonicalize_http_url_key(&v, "http://h/ns/a.js?t=7&b=2&a=1")
    );
    // A parameter without value is stripped by its name too; a longer name is kept.
    assert_eq!(canonicalize_http_url_key(&v, "http://h/ns/a.js?t&tt=1"), "http://h/ns/a.js?tt=1");
}

#[test]
fn the_most_specific_scope_decides() {
    let mut v = LoaderVocabulary::new();
    configure_loader(
        &mut v,
        r#"{"importMap":{"imports":{"a":"top","b":"top-b"},"scopes":{
            "http://h/":{"a":"outer","b":"outer-b"},
            "http://h/x/":{"a":"inner"}}}}"#,
    )
    .unwrap();
    assert_eq!(lookup_import_map(&v, "a", "http://h/x/m.js").as_deref(), Some("inner"));
    assert_eq!(lookup_import_map(&v, "b", "http://h/x/m.js").as_deref(), Some("outer-b"));
    assert_eq!(lookup_import_map(&v, "a", "http://h/y.js").as_deref(), Some("outer"));
    assert_eq!(lookup_import_map(&v, "a", "http://other/y.js").as_deref(), Some("top"));
    assert_eq!(v.import_map.scopes[0].0, "http://h/x/");
}

#[test]
fn the_longest_subtree_entry_maps() {
    let mut v = LoaderVocabulary::new();
    configure_loader(
        &mut v,
        r#"{"importMap":{"imports":{"p/":"one/","p/q/":"two/","r":"three"}}}"#,
    )
    .unwrap();
    assert_eq!(lookup_import_map(&v, "p/q/z.js", "").as_deref(), Some("two/z.js"));
    assert_eq!(lookup_import_map(&v, "p/z.js", "").as_deref(), Some("one/z.js"));
    assert_eq!(lookup_import_map(&v, "p/", "").as_deref(), Some("one/"));
    assert_eq!(lookup_import_map(&v, "r/z.js", ""), None);
}

#[test]
fn sections_replace_their_state_wholesale() {
    let mut v = LoaderVocabulary::new();
    configure_loader(&mut v, r#"{"volatilePatterns":["@vite"],"importMap":{"imports":{"a":"1"}}}"#).unwrap();
    assert!(is_volatile(&v, "http://h/@vite/client"));
    assert!(!is_volatile(&v, "http://h/app.js"));
    configure_loader(&mut v, r#"{"importMap":{"imports":{"b":"2"}}}"#).unwrap();
    assert_eq!(lookup_import_map(&v, "a", ""), None);
    assert_eq!(lookup_import_map(&v, "b", "").as_deref(), Some("2"));
    assert!(is_volatile(&v, "http://h/@vite/client"));
    configure_loader(&mut v, r#"{"volatilePatterns":[]}"#).unwrap();
    assert!(!is_volatile(&v, "http://h/@vite/client"));
    configure_loader(&mut v, r#"{}"#).unwrap();
    assert_eq!(lookup_import_map(&v, "b", "").as_deref(), Some("2"));
}

#[test]
fn each_bad_configuration_is_named() {
    let cases = [
        ("[]", "configureLoader expects a config object"),
        (r#"{"bogus":1}"#, "configureLoader: unknown option 'bogus'"),
        (r#"{"importMap":1}"#, "configureLoader: importMap must be an object"),
        (r#"{"importMap":{"imports":[]}}"#, "configureLoader: importMap.imports must be an object"),
        (r#"{"importMap":{"imports":{"a":1}}}"#, "configureLoader: importMap.imports: the value for 'a' must be a string"),
        (r#"{"importMap":{"scopes":1}}"#, "configureLoader: importMap.scopes must be an object"),
        (r#"{"importMap":{"scopes":{"":{}}}}"#, "configureLoader: a scope key must not be empty"),
        (r#"{"importMap":{"scopes":{"x":null}}}"#, "configureLoader: scope 'x' must be an object"),
        (r#"{"importMap":{"scopes":{"x":{"k":true}}}}"#, "configureLoader: scope 'x': the value for 'k' must be a string"),
        (
            r#"{"importMap":{"integrity":{}}}"#,
            "configureLoader: unsupported import-map section 'integrity'; only \"imports\" and \"scopes\" are supported",
        ),
        (r#"{"volatilePatterns":"x"}"#, "configureLoader: volatilePatterns must be an array of strings"),
        (r#"{"volatilePatterns":[1]}"#, "configureLoader: volatilePatterns must be an array of strings"),
        (r#"{"canonicalization":[]}"#, "configureLoader: canonicalization must be an object"),
        (
            r#"{"canonicalization":{"stripParams":[{}]}}"#,
            "configureLoader: canonicalization.stripParams must be an array of strings",
        ),
    ];
    for (json, message) in cases {
        let mut v = LoaderVocabulary::new();
        assert_eq!(configure_loader(&mut v, json).unwrap_err(), message);
    }
    let mut v = LoaderVocabulary::new();
    let invalid = configure_loader(&mut v, "{").unwrap_err();
    assert!(invalid.starts_with("configureLoader: invalid config: "), "{invalid}");
    assert!(invalid.contains("line 1 column 1"), "{invalid}");
}

#[test]
fn a_rejected_configuration_changes_nothing() {
    let mut v = LoaderVocabulary::new();
    configure_loader(&mut v, r#"{"volatilePatterns":["keep"],"importMap":{"imports":{"a":"1"}}}"#).unwrap();
    assert!(configure_loader(&mut v, r#"{"importMap":{"imports":{"a":"2"}},"volatilePatterns":[2]}"#).is_err());
    assert_eq!(lookup_import_map(&v, "a", "").as_deref(), Some("1"));
    assert!(is_volatile(&v, "keep"));
}

#[test]
fn json_is_read_as_it_is_written() {
    match parse(r#"{"b":[null,true,1.5,"x\u0041"],"a":{}}"#).unwrap() {
        Json::Object(members) => {
            let a = members.iter().find(|m| m.0 == "a").unwrap();
            assert!(matches!(&a.1, Json::Object(m) if m.is_empty()));
            let b = members.iter().find(|m| m.0 == "b").unwrap();
            match &b.1 {
                Json::Array(items) => {
                    assert!(matches!(items[0], Json::Null));
                    assert!(matches!(items[1], Json::Bool(true)));
                    assert!(matches!(items[2], Json::Number));
                    assert!(matches!(&items[3], Json::Text(s) if s == "xA"));
                    assert_eq!(items.len(), 4);
                }
                _ => panic!("not an array"),
            }
            assert_eq!(members.len(), 2);
        }
        _ => panic!("not an object"),
    }
    assert!(parse("nope").is_err());
}

#[test]
fn debug_hosts_allow_everything_and_release_builds_nothing() {
    let mut security = Security::new();
    assert!(!remote_url_allowed(&security, "http://h/a.js"));
    set_debug_build(&mut security, true);
    assert!(remote_url_allowed(&security, "http://h/a.js"));
    set_debug_build(&mut security, false);
    assert!(!remote_url_allowed(&security, "http://h/a.js"));
}

#[test]
fn release_builds_follow_the_package() {
    let package = r#"{"security":{"allowRemoteModules":true,"remoteModuleAllowlist":["https://cdn/",7]}}"#;
    let mut security = Security::new();
    init_security(&mut security, Some(package));
    assert!(remote_url_allowed(&security, "https://cdn/a.js"));
    assert!(!remote_url_allowed(&security, "https://else/a.js"));
    // Settings are read once.
    init_security(&mut security, Some(r#"{"security":{"allowRemoteModules":false}}"#));
    assert!(remote_url_allowed(&security, "https://cdn/a.js"));

    let mut open = Security::new();
    init_security(&mut open, Some(r#"{"security":{"allowRemoteModules":true}}"#));
    assert!(remote_url_allowed(&open, "https://anything/a.js"));

    for package in [None, Some("not json"), Some("{}"), Some(r#"{"security":{"allowRemoteModules":1}}"#)] {
        let mut closed = Security::new();
        init_security(&mut closed, package);
        assert!(!remote_url_allowed(&closed, "https://cdn/a.js"));
    }
}

#[test]
fn a_blocked_fetch_names_the_url() {
    let security = Security::new();
    let mut b = busts();
    let (_, step) = start_fetch(&security, &mut b, "http://h/a.js", "http://h/a.js");
    assert_eq!(
        done_error(step),
        "HTTP import blocked: remote module loading is not allowed for http://h/a.js (set security.allowRemoteModules in the app's package.json)"
    );
}

#[test]
fn a_nonce_is_one_shot_and_unique() {
    let mut b = busts();
    mark_keys_for_cache_bust(&mut b, &strings(&["k", "q"]));
    let first = begin_fetch(&mut b, "http://h/a.js", "k");
    assert_eq!(first.wire_url, "http://h/a.js?__ns_dev_nonce=42-0");
    assert!(first.bust);
    // An unanswered fetch leaves the mark.
    end_fetch(&mut b, "k", first.bust, false);
    let second = begin_fetch(&mut b, "http://h/a.js?x=1", "k");
    assert_eq!(second.wire_url, "http://h/a.js?x=1&__ns_dev_nonce=42-1");
    end_fetch(&mut b, "k", second.bust, true);
    let third = begin_fetch(&mut b, "http://h/a.js", "k");
    assert_eq!(third.wire_url, "http://h/a.js");
    assert!(!third.bust);
    assert!(b.marks.contains("q"));
}

#[test]
fn a_transport_error_is_retried_once() {
    let security = debug_host();
    let mut b = busts();
    let (mut fetch, step) = start_fetch(&security, &mut b, "http://h/a.js", "k");
    assert_eq!(sent(step), "http://h/a.js");
    let step = resume_fetch(&mut fetch, &mut b, Err("first".to_string()));
    assert_eq!(sent(step), "http://h/a.js");
    let step = resume_fetch(&mut fetch, &mut b, Err("second".to_string()));
    assert_eq!(done_error(step), "HTTP import failed: http://h/a.js (second)");

    let (mut fetch, _) = start_fetch(&security, &mut b, "http://h/a.js", "k");
    match resume_fetch(&mut fetch, &mut b, Ok(response(200, "text/javascript", "1"))) {
        FetchStep::Done(Ok(m)) => {
            assert_eq!(m.body, "1");
            assert!(m.kind == ModuleKind::JavaScript);
        }
        _ => panic!("expected a module"),
    }
}

#[test]
fn responses_are_classified() {
    let url = "http://h/a.js";
    let js = |r: Response| classify_response(url, &r);
    let module = js(response(200, "Application/JavaScript; charset=utf-8", "let x;")).ok().unwrap();
    assert!(module.kind == ModuleKind::JavaScript);
    assert_eq!(module.body, "let x;");
    assert_eq!(js(response(299, "text/javascript", "")).ok().unwrap().body, "export {};\n");
    let json = js(response(200, "application/ld+json", "{}")).ok().unwrap();
    assert!(json.kind == ModuleKind::Json);
    assert_eq!(json.body, "{}");
    let error = |r: Response| js(r).err().unwrap();
    assert_eq!(error(response(204, "text/javascript", "")), "HTTP import failed: http://h/a.js (status=204, no content)");
    assert_eq!(error(response(205, "", "")), "HTTP import failed: http://h/a.js (status=205, no content)");
    assert_eq!(error(response(404, "text/plain", "x")), "HTTP import failed: http://h/a.js (status=404)");
    assert_eq!(error(response(300, "text/javascript", "x")), "HTTP import failed: http://h/a.js (status=300)");
    assert_eq!(
        error(response(200, "application/json", "")),
        "Expected a JSON module but 'http://h/a.js' responded with an empty body"
    );
    assert_eq!(
        error(response(200, "", "x")),
        "Expected a JavaScript module but 'http://h/a.js' responded with no MIME type"
    );
    assert_eq!(
        error(response(200, "text/css", "body{}")),
        "Expected a JavaScript module but 'http://h/a.js' responded with MIME type 'text/css'"
    );
}

#[test]
fn bodies_are_read_lossily() {
    let r = Response { status: 200, content_type: "module".to_string(), body: vec![0x68, 0xff, 0x69] };
    assert_eq!(classify_response("u", &r).ok().unwrap().body, "h\u{fffd}i");
    let r = Response { status: 200, content_type: "module".to_string(), body: "h\u{20ac}".as_bytes().to_vec() };
    assert_eq!(classify_response("u", &r).ok().unwrap().body, "h\u{20ac}");
}

#[test]
fn mime_essences() {
    assert_eq!(mime_essence(" Text/JavaScript ; charset=utf-8"), "text/javascript");
    assert_eq!(mime_essence(""), "");
    assert_eq!(mime_essence("module"), "module");
}

#[test]
fn batches_cover_all_modules_in_order() {
    assert!(batches(0).is_empty());
    assert_eq!(batches(1), vec![(0, 1)]);
    assert_eq!(batches(8), vec![(0, 8)]);
    assert_eq!(batches(17), vec![(0, 8), (8, 16), (16, 17)]);
}

#[test]
fn outcomes_stand_at_their_modules() {
    let fetched = |i: usize| -> Result<FetchedModule, String> {
        if i == 9 {
            Err("no".to_string())
        } else {
            Ok(FetchedModule { kind: ModuleKind::JavaScript, body: format!("m{i}") })
        }
    };
    let mut outcomes = Vec::new();
    for (from, to) in batches(11) {
        gather(&mut outcomes, (from..to).map(|i| if i == 3 { None } else { Some(fetched(i)) }).collect());
    }
    assert_eq!(outcomes.len(), 11);
    for (i, outcome) in outcomes.into_iter().enumerate() {
        match outcome {
            Ok(m) => assert_eq!(m.body, format!("m{i}")),
            Err(e) if i == 3 => assert_eq!(e, "HTTP fetch thread panicked"),
            Err(e) => assert_eq!((i, e.as_str()), (9, "no")),
        }
    }
}

#[test]
fn json_modules_export_their_value() {
    assert_eq!(json_module_source("{\"n\": 7}"), "export default JSON.parse(\"{\\\"n\\\": 7}\");\n");
    assert_eq!(json_module_source("a\nb\u{1}"), "export default JSON.parse(\"a\\nb\\u0001\");\n");
}

#[test]
fn invalidation_drops_each_key_once_and_busts_it() {
    let keys = invalidation_keys(&vec![Some("http://h/a.js".to_string()), Some("http://h/a.js".to_string()), Some("b".to_string())])
        .ok()
        .unwrap();
    assert_eq!(keys, strings(&["http://h/a.js", "b"]));
    assert_eq!(
        invalidation_keys(&vec![Some("x".to_string()), None, None]).unwrap_err(),
        "invalidateModules: urls[1] must be a string"
    );
    assert_eq!(removed_count(&vec![true, false, true]), 2);
    let mut b = busts();
    bust_dropped_keys(&mut b, &strings(&["http://h/a.js", "C:/app/x.mjs"]));
    assert!(begin_fetch(&mut b, "http://h/a.js", "http://h/a.js").bust);
    assert!(!begin_fetch(&mut b, "C:/app/x.mjs", "C:/app/x.mjs").bust);
}

#[test]
fn loaded_urls_are_the_served_ones_in_order() {
    let urls = loaded_urls(&strings(&["http://h/b.js", "C:/app/x.mjs", "http://h/a.js"]));
    assert_eq!(urls, strings(&["http://h/a.js", "http://h/b.js"]));
}
