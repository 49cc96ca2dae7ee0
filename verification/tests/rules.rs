use doc_checker::baseline::normalize_file_part;
use doc_checker::checks::{check_items, missing_sections};
use doc_checker::identity::{classification_rules, finding_identity, identify, Rule};
use doc_checker::source::{parse_source, Attr, FieldList, FnItem, Member, SourceItem};
use doc_checker::{check_contract_docs, check_docs, CheckConfig, Severity};

fn config(check_events: bool) -> CheckConfig {
    CheckConfig { check_events, ..CheckConfig::default() }
}

#[test]
fn messages_name_file_line_and_item() {
    let code = "#[contractimpl]\nimpl C {\n    /// Adds. Requires auth.\n    pub fn put(env: Env, x: u32) -> u32 { x }\n\n    pub fn bare(env: Env) {}\n    fn hidden() {}\n}\n";
    let findings = check_docs(code, "../../onchain/c.rs", &config(false));
    assert_eq!(findings.len(), 2);
    assert_eq!(findings[0].message, "../../onchain/c.rs:4: fn put missing params, return");
    assert_eq!(findings[0].severity, Severity::Fail);
    assert_eq!(findings[1].message, "../../onchain/c.rs:6: fn bare has no doc comment at all");
    assert_eq!(findings[1].severity, Severity::Warn);
}

#[test]
fn sections_are_looked_for_in_any_case() {
    let none: Vec<String> = vec![];
    assert_eq!(missing_sections("param return access", true, true), none);
    assert_eq!(missing_sections("arguments authorized", true, false), none);
    assert_eq!(missing_sections("", false, false), vec!["access control"]);
    assert_eq!(missing_sections("x", true, true), vec!["params", "return", "access control"]);
    let code = "#[contractimpl] impl C { /** PARAMETERS, RETURNS and REQUIRES */ pub fn f(a: A) -> B {} }";
    assert!(check_contract_docs(code, "f.rs", false).is_empty());
    let code = "#[contractimpl] impl C { /// ÜBER PARAM, RETURN: AUTH\n pub fn f(a: A) -> B {} }";
    assert!(check_contract_docs(code, "f.rs", false).is_empty());
    // The Kelvin sign has an ASCII letter as its lower case.
    let code = "#[contractimpl] impl C { /// ACCESS \u{212a}\n pub fn f(a: A) {} }";
    assert_eq!(check_contract_docs(code, "f.rs", false), vec!["f.rs:2: fn f missing params"]);
}

#[test]
fn only_contract_items_are_looked_at() {
    let code = "impl C { pub fn f() {} }\nmod m { #[contractimpl] impl C { pub fn g() {} } }\n#[other::contractimpl] impl D { pub fn h() {} }\npub fn k() {}\n#[contractimpl] impl T for C { fn t() {} const X: u8 = 0; }";
    assert!(check_contract_docs(code, "f.rs", true).is_empty());
}

#[test]
fn doc_attributes_count() {
    let code = "#[contractimpl]\nimpl C {\n#[doc = \"auth\"]\npub fn f() {}\n#[doc(hidden)]\npub fn g() {}\n#[doc = include_str!(\"x\")]\npub fn h() {}\n}";
    assert_eq!(
        check_contract_docs(code, "f.rs", false),
        vec!["f.rs:6: fn g has no doc comment at all", "f.rs:8: fn h has no doc comment at all"]
    );
}

#[test]
fn event_structs_and_enums() {
    let code = "#[contracttype]\npub struct PaidEvent(u8, /** yes */ u8, u8);\n#[contracttype]\npub struct AnyPayload {\n    #[doc(hidden)]\n    pub a: u8,\n    pub r#type: u8,\n}\n#[contracttype]\n#[contracterror]\npub enum OddEvent {\n    /// Known.\n    A,\n    B,\n}\n#[contracttype] pub struct UnitEvent;";
    let findings = check_docs(code, "e.rs", &config(true));
    let messages: Vec<&str> = findings.iter().map(|f| f.message.as_str()).collect();
    assert_eq!(
        messages,
        vec![
            "e.rs: struct PaidEvent missing docs for unnamed field 0",
            "e.rs: struct PaidEvent missing docs for unnamed field 2",
            "e.rs:6: struct AnyPayload missing docs for field a",
            "e.rs:7: struct AnyPayload missing docs for field r#type",
            "e.rs:14: enum OddEvent missing docs for variant B",
            "e.rs:14: error enum OddEvent variant B has no doc comment",
        ]
    );
    assert_eq!(findings[4].severity, Severity::Fail);
    assert_eq!(findings[5].severity, Severity::Warn);
    // Without the flag only the error rule looks at the enum.
    assert_eq!(check_docs(code, "e.rs", &config(false)).len(), 1);
}

#[test]
fn hidden_members_are_not_documented() {
    let code = "#[contracttype]\npub struct TransferEvent {\n#[doc(hidden)]\npub from: Address,\n}";
    let findings = check_docs(code, "test.rs", &config(true));
    assert_eq!(findings.len(), 1);
    assert_eq!(findings[0].severity, Severity::Fail);
    assert_eq!(
        findings[0].message,
        "test.rs:4: struct TransferEvent missing docs for field from"
    );
    let code = "#[contracterror]\npub enum E {\n#[doc(hidden)]\nA,\n#[doc = \"b\"]\nB,\n}\n#[contracttype]\npub struct TEvent(#[doc(hidden)] u8, #[doc = \"x\"] u8);";
    assert_eq!(
        check_contract_docs(code, "t.rs", true),
        vec![
            "t.rs:4: error enum E variant A has no doc comment",
            "t.rs: struct TEvent missing docs for unnamed field 0",
        ]
    );
}

#[test]
fn strictness_changes_no_message() {
    let code = "#[contracterror] pub enum E { A, B }\n#[contractimpl] impl C { pub fn f() {} }";
    let lax = check_docs(code, "e.rs", &config(true));
    let strict = check_docs(
        code,
        "e.rs",
        &CheckConfig { new_check_severity: Severity::Fail, ..config(true) },
    );
    assert_eq!(lax.len(), 3);
    assert!(lax.iter().all(|f| f.severity == Severity::Warn));
    assert!(strict.iter().all(|f| f.severity == Severity::Fail));
    assert!(lax.iter().zip(strict.iter()).all(|(a, b)| a.message == b.message));
}

#[test]
fn items_can_be_given_as_values() {
    let doc = Attr { name: Some("doc".to_string()), text: Some(" Needs auth.".to_string()) };
    let func = FnItem {
        public: true,
        name: "put".to_string(),
        line: 9,
        attrs: vec![doc],
        inputs: 2,
        returns_value: false,
    };
    let items = vec![
        SourceItem::Impl { attrs: vec![Some("contractimpl".to_string())], members: vec![None, Some(func)] },
        SourceItem::Struct {
            attrs: vec![Some("contracttype".to_string())],
            name: "XEvent".to_string(),
            fields: FieldList::Named(vec![Member {
                name: "a".to_string(),
                line: 12,
                attrs: vec![Attr { name: Some("doc".to_string()), text: None }],
            }]),
        },
        SourceItem::Other,
    ];
    let messages: Vec<String> =
        check_items(&items, "f.rs", &config(true)).into_iter().map(|f| f.message).collect();
    assert_eq!(
        messages,
        vec!["f.rs:9: fn put missing params", "f.rs:12: struct XEvent missing docs for field a"]
    );
}

#[test]
fn sources_are_read_item_by_item() {
    let items = parse_source("use a::b;\n#[contracterror]\nenum E { A }\nstruct S { x: u8 }").unwrap();
    assert_eq!(items.len(), 3);
    assert!(matches!(&items[0], SourceItem::Other));
    assert!(matches!(&items[1], SourceItem::Enum { name, .. } if name == "E"));
    assert!(matches!(&items[2], SourceItem::Struct { name, .. } if name == "S"));
    assert!(parse_source("fn (").is_none());
    assert!(parse_source("").unwrap().is_empty());
}

#[test]
fn identities_of_odd_files() {
    // The file reaches to the last line number that fits.
    assert_eq!(
        finding_identity("a:1: fn x.rs:2: fn f has no doc comment at all").unwrap(),
        "a:1: fn x.rs|fn-undocumented|f"
    );
    // An earlier rule claims a message that it recognizes.
    assert_eq!(
        finding_identity("a:1: fn g missing b:2: fn f has no doc comment at all").unwrap(),
        "a|fn-missing-sections|g"
    );
    assert_eq!(
        finding_identity("a: struct S missing docs for unnamed field 12").unwrap(),
        "a|event-unnamed-field|S::12"
    );
    assert_eq!(finding_identity("é.rs:٣: fn größe missing x").unwrap(), "é.rs|fn-missing-sections|größe");
}

#[test]
fn messages_that_no_rule_knows() {
    for message in [
        "",
        ":1: fn f has no doc comment at all",
        "a.rs:x: fn f has no doc comment at all",
        "a.rs:1: fn r#f has no doc comment at all",
        "a.rs:1: fn f has no doc comment at all\n",
        "a\n.rs:1: fn f has no doc comment at all",
        "a.rs:1: fn f missing ",
        "a.rs:1: struct S missing docs for unnamed field x",
    ] {
        assert_eq!(finding_identity(message), None, "{}", message);
    }
}

#[test]
fn each_rule_knows_its_messages() {
    let rules = classification_rules();
    assert_eq!(rules.len(), 8);
    let message = "a.rs:1: enum E missing docs for variant V";
    for rule in rules {
        let found = identify(rule, message);
        assert_eq!(found.is_some(), rule == Rule::EventVariant);
    }
    assert_eq!(Rule::StaleRef.key(), "stale-ref");
    assert_eq!(identify(Rule::EventVariant, message).unwrap(), "a.rs|event-variant|E::V");
}

#[test]
fn file_parts_are_normalized() {
    assert_eq!(normalize_file_part("..\\..\\onchain\\a.rs"), "onchain/a.rs");
    assert_eq!(normalize_file_part("../../../x"), "x");
    assert_eq!(normalize_file_part("a/../b"), "a/../b");
    assert_eq!(normalize_file_part(".../b"), ".../b");
    assert_eq!(normalize_file_part("../"), "");
}

#[test]
fn different_findings_have_different_identities() {
    let messages = [
        "a.rs:1: fn f missing params",
        "a.rs:1: fn f has no doc comment at all",
        "a.rs:1: fn g has no doc comment at all",
        "b.rs:1: fn g has no doc comment at all",
        "a.rs:1: struct S missing docs for field f",
        "a.rs: struct S missing docs for unnamed field 0",
        "a.rs:1: enum S missing docs for variant f",
        "a.rs:1: error enum S variant f has no doc comment",
        "a.rs: orphaned doc - not reachable from README.md or any docs index file",
        "a.rs:1: stale doc reference to `f` – no matching pub fn found in contracts",
    ];
    let mut identities: Vec<String> =
        messages.iter().map(|m| finding_identity(m).unwrap()).collect();
    identities.sort();
    identities.dedup();
    assert_eq!(identities.len(), messages.len());
    for message in messages {
        let deeper = format!("..\\../{}", message);
        assert_eq!(finding_identity(&deeper), finding_identity(message));
    }
}

const ALL_KINDS: &str = "#[contracterror]\npub enum E {\n    A,\n}\n#[contracttype]\npub struct XEvent {\n    a: u32,\n}\n#[contracttype]\npub struct YEvent(u32);\n#[contracttype]\n#[contracterror]\npub enum ZPayload {\n    V,\n}\n#[contractimpl]\nimpl C {\n    pub fn bare() {}\n    /// auth\n    pub fn put(a: A) {}\n}\n";

const ERROR: &str = "f.rs:3: error enum E variant A has no doc comment";
const FIELD: &str = "f.rs:7: struct XEvent missing docs for field a";
const UNNAMED: &str = "f.rs: struct YEvent missing docs for unnamed field 0";
const VARIANT: &str = "f.rs:14: enum ZPayload missing docs for variant V";
const EVENT_ERROR: &str = "f.rs:14: error enum ZPayload variant V has no doc comment";
const BARE: &str = "f.rs:18: fn bare has no doc comment at all";
const PUT: &str = "f.rs:20: fn put missing params";

fn reported(config: CheckConfig) -> Vec<String> {
    check_docs(ALL_KINDS, "f.rs", &config).into_iter().map(|f| f.message).collect()
}

#[test]
fn a_rule_that_is_off_takes_its_messages_with_it() {
    let all = CheckConfig {
        check_events: true,
        check_undocumented_fns: true,
        check_error_enums: true,
        ..CheckConfig::default()
    };
    assert_eq!(reported(all), vec![ERROR, FIELD, UNNAMED, VARIANT, EVENT_ERROR, BARE, PUT]);
    assert_eq!(
        reported(CheckConfig { check_events: false, ..all }),
        vec![ERROR, EVENT_ERROR, BARE, PUT]
    );
    assert_eq!(
        reported(CheckConfig { check_undocumented_fns: false, ..all }),
        vec![ERROR, FIELD, UNNAMED, VARIANT, EVENT_ERROR, PUT]
    );
    assert_eq!(
        reported(CheckConfig { check_error_enums: false, ..all }),
        vec![FIELD, UNNAMED, VARIANT, BARE, PUT]
    );
    assert_eq!(
        reported(CheckConfig {
            check_events: false,
            check_undocumented_fns: false,
            check_error_enums: false,
            ..all
        }),
        vec![PUT]
    );
    assert_eq!(
        reported(CheckConfig { check_orphaned_docs: false, check_stale_refs: false, ..all }),
        reported(all)
    );
}

#[test]
fn only_missing_doc_comments_warn() {
    let warned: Vec<String> = check_docs(ALL_KINDS, "f.rs", &config(true))
        .into_iter()
        .filter(|f| f.severity == Severity::Warn)
        .map(|f| f.message)
        .collect();
    assert_eq!(warned, vec![ERROR, EVENT_ERROR, BARE]);
}

#[test]
fn leading_zeros_of_line_numbers_do_not_matter() {
    assert_eq!(
        finding_identity("a.rs:007: fn f has no doc comment at all").unwrap(),
        finding_identity("a.rs:7: fn f has no doc comment at all").unwrap()
    );
    assert_eq!(
        finding_identity("a.rs:0: fn f missing params").unwrap(),
        finding_identity("a.rs:18446744073709551616: fn f missing params").unwrap()
    );
}

#[test]
fn spelling_of_the_path_does_not_matter() {
    let tails = [
        ":1: fn foo missing params, return",
        ":1: fn foo has no doc comment at all",
        ":1: struct S missing docs for field f",
        ": struct S missing docs for unnamed field 0",
        ":1: enum E missing docs for variant V",
        ":1: error enum E variant V has no doc comment",
        ": orphaned doc - not reachable from README.md or any docs index file",
        ":1: stale doc reference to `f` – no matching pub fn found in contracts",
    ];
    let spellings = [
        "../onchain/c/lib.rs",
        "../../../onchain/c/lib.rs",
        "onchain\\c\\lib.rs",
        "..\\..\\onchain/c\\lib.rs",
        "../..\\onchain\\c/lib.rs",
    ];
    for tail in tails {
        let own = finding_identity(&format!("onchain/c/lib.rs{}", tail)).unwrap();
        assert!(own.starts_with("onchain/c/lib.rs|"));
        for file in spellings {
            assert_eq!(finding_identity(&format!("{}{}", file, tail)).unwrap(), own);
        }
    }
}

#[test]
fn whatever_is_reported_can_be_classified() {
    for file in ["f.rs", "../../a b/c.rs", "odd: fn x missing y.rs", " "] {
        let findings = check_docs(ALL_KINDS, file, &config(true));
        assert_eq!(findings.len(), 7);
        assert!(findings.iter().all(|f| finding_identity(&f.message).is_some()));
    }
}
