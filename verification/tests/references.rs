use doc_checker::references::{
    check_stale_doc_references, collect_contract_fns, extract_backtick_references,
    extract_contract_functions, find_stale_references, DocTree, TextFile,
};
use doc_checker::{CheckConfig, Severity};

fn file(path: &str, text: &str) -> TextFile {
    TextFile { path: path.to_string(), text: text.to_string() }
}

#[test]
fn test_extract_backtick_references_basic() {
    let md = "Call `initialize` and then `get_status`.";
    let refs = extract_backtick_references(md);
    assert_eq!(refs.len(), 2);
    assert_eq!(refs[0], ("initialize".to_string(), 1));
    assert_eq!(refs[1], ("get_status".to_string(), 1));
}

#[test]
fn test_extract_backtick_references_multiline() {
    let md = "First, call `initialize`.\nThen call `check_and_consume`.";
    let refs = extract_backtick_references(md);
    assert_eq!(refs.len(), 2);
    assert_eq!(refs[0], ("initialize".to_string(), 1));
    assert_eq!(refs[1], ("check_and_consume".to_string(), 2));
}

#[test]
fn test_extract_backtick_references_skips_no_std() {
    let md = "Uses `#![no_std]` and `initialize`.";
    let refs = extract_backtick_references(md);
    assert_eq!(refs.len(), 1);
    assert_eq!(refs[0].0, "initialize");
}

#[test]
fn test_extract_backtick_references_empty() {
    let md = "No code references here.";
    let refs = extract_backtick_references(md);
    assert!(refs.is_empty());
}

#[test]
fn test_extract_contract_functions_basic() {
    let code = r#"
        pub fn initialize(env: Env) {}
        pub fn get_status(env: Env) -> u32 { 0 }
        fn internal_helper() {}
        "#;
    let fns = extract_contract_functions(code);
    assert_eq!(fns.len(), 2);
    assert!(fns.contains(&"initialize".to_string()));
    assert!(fns.contains(&"get_status".to_string()));
}

#[test]
fn test_extract_contract_functions_dedup() {
    let code = r#"
        pub fn initialize(env: Env) {}
        pub fn initialize(env: Env, extra: i128) {}
        "#;
    let fns = extract_contract_functions(code);
    assert_eq!(fns.len(), 1);
}

#[test]
fn test_collect_contract_fns_empty_dir() {
    let fns = collect_contract_fns(&vec![]);
    assert!(fns.is_empty());
}

#[test]
fn test_find_stale_references_empty_docs() {
    let stale = find_stale_references(&vec![], &vec![]);
    assert!(stale.is_empty());
}

#[test]
fn test_check_stale_doc_references_disabled() {
    let config = CheckConfig {
        check_stale_refs: false,
        ..CheckConfig::default()
    };
    let tree = DocTree { docs: vec![file("/tmp/docs/a.md", "`gone`")], sources: vec![] };
    let findings = check_stale_doc_references("/tmp", Some(&tree), &config);
    assert!(findings.is_empty());
}

#[test]
fn test_check_stale_doc_references_no_docs_dir() {
    let config = CheckConfig::default();
    let findings = check_stale_doc_references("/nonexistent", None, &config);
    assert!(findings.is_empty());
}

#[test]
fn test_extract_backtick_references_only_snake_case() {
    let md = "Use `CamelCase` or `snake_case` but only the latter is extracted.";
    let refs = extract_backtick_references(md);
    assert_eq!(refs.len(), 1);
    assert_eq!(refs[0].0, "snake_case");
}

#[test]
fn skipped_and_odd_identifiers() {
    let md = "`no_std` `cfg_attr` `cfg` `_x9` `9x` `a b` ``\r\n``double``\n`last`";
    assert_eq!(
        extract_backtick_references(md),
        vec![
            ("cfg".to_string(), 1),
            ("_x9".to_string(), 1),
            ("double".to_string(), 2),
            ("last".to_string(), 3),
        ]
    );
}

#[test]
fn matches_do_not_overlap() {
    // The middle backtick closes the first identifier and opens no other.
    assert_eq!(extract_backtick_references("`a`b`"), vec![("a".to_string(), 1)]);
    assert_eq!(
        extract_backtick_references("x` `b` y"),
        vec![("b".to_string(), 1)]
    );
}

#[test]
fn function_names_are_found_across_lines() {
    assert_eq!(
        extract_contract_functions("pub\n fn\tété() pub fn a_1<T> pub  fn Z; pub(crate) fn no"),
        vec!["été", "a_1", "Z"]
    );
    assert!(extract_contract_functions("pub fnord() pubfn x").is_empty());
}

#[test]
fn functions_of_all_sources_are_known() {
    let sources = vec![
        "pub fn a() {} pub fn b() {}".to_string(),
        "pub fn b() {} pub fn c() {}".to_string(),
    ];
    assert_eq!(collect_contract_fns(&sources), vec!["a", "b", "c"]);
}

#[test]
fn stale_references_are_reported() {
    let tree = DocTree {
        docs: vec![
            file("/repo/docs/a.md", "# A\nCall `kept`.\nCall `gone`."),
            file("/repo/docs/sub\\b.md", "`gone_too`"),
        ],
        sources: vec!["pub fn kept() {}".to_string()],
    };
    assert_eq!(
        find_stale_references(&tree.docs, &tree.sources),
        vec![
            ("/repo/docs/a.md".to_string(), "gone".to_string(), 3),
            ("/repo/docs/sub\\b.md".to_string(), "gone_too".to_string(), 1),
        ]
    );
    let findings = check_stale_doc_references("/repo", Some(&tree), &CheckConfig::default());
    assert_eq!(findings.len(), 2);
    assert_eq!(findings[0].severity, Severity::Warn);
    assert_eq!(
        findings[0].message,
        "docs/a.md:3: stale doc reference to `gone` – no matching pub fn found in contracts"
    );
    assert_eq!(
        findings[1].message,
        "docs/sub/b.md:1: stale doc reference to `gone_too` – no matching pub fn found in contracts"
    );
}

fn joined_references(a: &str, b: &str) -> Vec<(String, usize)> {
    let lines_before = 1 + a.matches('\n').count();
    let mut all = extract_backtick_references(a);
    for (name, line) in extract_backtick_references(b) {
        all.push((name, line + lines_before));
    }
    all
}

#[test]
fn references_of_joined_documents() {
    let parts = ["", "`a`", "`a`\n", "`a`\r", "x\r\n`b` `c", "\n\n", "`\n`", "d` `e`\n\r", "`no_std`\r\n`f`"];
    for a in parts {
        for b in parts {
            let whole = format!("{}\n{}", a, b);
            assert_eq!(extract_backtick_references(&whole), joined_references(a, b), "{:?}", whole);
        }
    }
    assert_eq!(
        extract_backtick_references("x\r\n`b` `c\n`a`\n"),
        vec![("b".to_string(), 2), ("a".to_string(), 3)]
    );
}

#[test]
fn functions_of_joined_sources() {
    assert_eq!(
        extract_contract_functions("pub fn b() {} pub fn a() {} pub fn b;pub fn c() pub fn a() pub fn d"),
        vec!["b", "a", "c", "d"]
    );
    assert!(extract_contract_functions("pub fn ;x").is_empty());
    assert_eq!(extract_contract_functions(";pub fn x;"), vec!["x"]);
}
