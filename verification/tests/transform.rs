//! The transform of a module into a function that a runner calls.

use runtime::transform::{
    line_col, refuse, transform, wrap_outcome, Diagnostic, Parsed, TopLevel, WRAPPER_HEAD, WRAPPER_TAIL,
};

#[test]
fn exports_are_getters_hoisted_above_awaited_imports() {
    let out = transform(
        "import d, { a } from './dep.mjs';\nexport let n = a;\nexport default d;\nexport * from './star.mjs';",
        "C:/app/main.mjs",
    )
    .ok()
    .unwrap();
    assert_eq!(out.deps, vec!["./dep.mjs".to_string(), "./star.mjs".to_string()]);
    assert!(out.code.starts_with("(async function (__vite_ssr_exports__"), "{}", out.code);
    let getter = out.code.find("Object.defineProperty(__vite_ssr_exports__, \"n\"").unwrap();
    let import = out.code.find("await __vite_ssr_import__(\"./dep.mjs\"").unwrap();
    assert!(getter < import, "{}", out.code);
    assert!(out.code.contains("__vite_ssr_exportAll__("), "{}", out.code);
}

#[test]
fn import_meta_and_dynamic_import_go_through_the_runner() {
    let out = transform("const u = import.meta.url; const m = () => import('./lazy.mjs');", "k").ok().unwrap();
    assert!(out.code.contains("__vite_ssr_import_meta__.url"), "{}", out.code);
    assert!(out.code.contains("__vite_ssr_dynamic_import__(\"./lazy.mjs\")"), "{}", out.code);
    assert!(out.deps.is_empty());
}

#[test]
fn syntax_errors_name_the_module_and_location() {
    let err = transform("export const ok = 1;\nexport const = 2;", "C:/app/bad.mjs").err().unwrap();
    assert!(err.contains("(C:/app/bad.mjs:2:"), "{err}");
}

#[test]
fn an_exported_class_needs_a_name() {
    let err = transform("export class {}", "C:/app/bad.mjs").err().unwrap();
    assert_eq!(err, "A class name is required. (C:/app/bad.mjs:1:8)");
    let err = transform("export class A {}\n  export class {}", "k.mjs").err().unwrap();
    assert_eq!(err, "A class name is required. (k.mjs:2:10)");
    // What has a name, or needs none, goes through.
    assert!(transform("export class A {}\nexport default class {}", "k").is_ok());
    assert!(transform("export default function () {}", "k").is_ok());
    assert!(transform("const A = class {};\nexport { A };", "k").is_ok());
}

#[test]
fn only_the_parser_refuses_other_modules() {
    assert!(transform("let a = 1;\nlet a = 2;", "k").is_ok());
    assert!(transform("export { setTimeout };", "k").is_ok());
    assert!(transform("class {}", "k").is_ok());
    let out = transform("import { a } from './x.mjs';\nimport { a } from './y.mjs';\nexport { a };", "k").ok().unwrap();
    assert_eq!(out.deps, vec!["./x.mjs".to_string(), "./y.mjs".to_string()]);
    let out = transform("import * as a from './x.mjs';\nimport a from './y.mjs';\nexport let b = a;\nlet b = 1;", "k");
    assert!(out.is_ok());
    // The parser's complaint comes before that of a class without a name.
    let err = transform("export class {}\nexport const = 2;", "k").err().unwrap();
    assert!(err.contains("(k:2:"), "{err}");
}

#[test]
fn refusals_are_the_first_complaint_or_the_first_nameless_class() {
    let complaint = |m: &str, at: u32| Diagnostic { message: m.to_string(), offsets: vec![at] };
    let statements = || {
        vec![
            TopLevel::Other,
            TopLevel::ExportedClass(Some("A".to_string()), 1),
            TopLevel::ExportedClass(None, 2),
            TopLevel::ExportedClass(None, 3),
        ]
    };
    let d = refuse(Parsed { statements: statements(), complaints: vec![complaint("one", 7), complaint("two", 8)] }).unwrap();
    assert_eq!((d.message.as_str(), d.offsets), ("one", vec![7]));
    let d = refuse(Parsed { statements: statements(), complaints: vec![] }).unwrap();
    assert_eq!((d.message.as_str(), d.offsets), ("A class name is required.", vec![2]));
    let named = vec![TopLevel::Other, TopLevel::ExportedClass(Some("A".to_string()), 1)];
    assert!(refuse(Parsed { statements: named, complaints: vec![] }).is_none());
}

#[test]
fn places_grow_with_offsets() {
    let source = "a\n\nbc\n";
    let places: Vec<(u64, u64)> = (0..=6).map(|i| line_col(source, i)).collect();
    assert_eq!(places, vec![(1, 1), (1, 2), (2, 1), (3, 1), (3, 2), (3, 3), (4, 1)]);
    assert!(places.windows(2).all(|w| w[0] < w[1]));
}

#[test]
fn wrapped_code_stands_between_head_and_tail() {
    let out = wrap_outcome("x", "k", Ok(("body;\n".to_string(), vec!["b".to_string(), "a".to_string()])))
        .ok()
        .unwrap();
    assert_eq!(out.code, format!("{WRAPPER_HEAD}body;\n{WRAPPER_TAIL}"));
    // Dependencies are listed in code point order.
    assert_eq!(out.deps, vec!["a".to_string(), "b".to_string()]);
}

#[test]
fn repeated_imports_are_one_dependency() {
    let out = transform("import './z.mjs';\nimport './a.mjs';\nimport './z.mjs';", "k").ok().unwrap();
    assert_eq!(out.deps, vec!["./a.mjs".to_string(), "./z.mjs".to_string()]);
}

#[test]
fn lines_and_columns_count_from_one() {
    assert_eq!(line_col("ab\ncd", 0), (1, 1));
    assert_eq!(line_col("ab\ncd", 2), (1, 3));
    assert_eq!(line_col("ab\ncd", 3), (2, 1));
    assert_eq!(line_col("ab\ncd", 99), (2, 3));
    assert_eq!(line_col("", 0), (1, 1));
}

#[test]
fn diagnostics_are_located_where_they_point() {
    let one = Diagnostic { message: "one".to_string(), offsets: vec![3, 0] };
    let err = wrap_outcome("ab\ncd", "m.mjs", Err(one)).err().unwrap();
    assert_eq!(err, "one (m.mjs:2:1)");
    let two = Diagnostic { message: "two".to_string(), offsets: vec![] };
    let err = wrap_outcome("ab\ncd", "m.mjs", Err(two)).err().unwrap();
    assert_eq!(err, "two (m.mjs)");
}
