use doc_checker::baseline::{
    default_baseline_path, default_version, partition_findings, BaselineError, BaselineFile,
    Partitioned, BASELINE_VERSION,
};
use doc_checker::violations::ViolationSet;
use doc_checker::{Finding, Severity};

fn finding(msg: &str) -> Finding {
    Finding {
        severity: Severity::Fail,
        message: msg.to_string(),
    }
}

fn baseline_of(entries: &[&str]) -> BaselineFile {
    let list: Vec<String> = entries.iter().map(|e| e.to_string()).collect();
    BaselineFile {
        version: BASELINE_VERSION,
        updated: None,
        violations: ViolationSet::from_list(&list),
    }
}

#[test]
fn test_partition_downgrades_baselined_and_flags_unmatched() {
    let baseline = baseline_of(&["onchain/a.rs|fn-undocumented|baselined_fn"]);
    let findings = vec![
        finding("onchain/a.rs:1: fn baselined_fn has no doc comment at all"),
        finding("onchain/a.rs:2: fn new_violation has no doc comment at all"),
    ];
    let partitioned = partition_findings(&findings, Some(&baseline));
    assert_eq!(partitioned.baselined.len(), 1);
    assert_eq!(partitioned.baselined[0].severity, Severity::Warn);
    assert_eq!(partitioned.unmatched.len(), 1);
    assert_eq!(partitioned.unmatched[0].severity, Severity::Fail);
    assert!(partitioned.stale_entries.is_empty());
}

#[test]
fn test_partition_reports_stale_entries() {
    let baseline = baseline_of(&[
        "onchain/a.rs|fn-undocumented|fixed_fn",
        "onchain/a.rs|fn-undocumented|still_broken_fn",
    ]);
    let findings = vec![finding("onchain/a.rs:1: fn still_broken_fn has no doc comment at all")];
    let partitioned = partition_findings(&findings, Some(&baseline));
    assert_eq!(
        partitioned.stale_entries,
        vec!["onchain/a.rs|fn-undocumented|fixed_fn".to_string()]
    );
}

#[test]
fn test_partition_without_baseline_matches_everything_unmatched() {
    let findings = vec![finding("onchain/a.rs:1: fn foo has no doc comment at all")];
    let partitioned = partition_findings(&findings, None);
    assert!(partitioned.baselined.is_empty());
    assert_eq!(partitioned.unmatched.len(), 1);
    assert!(partitioned.stale_entries.is_empty());
}

#[test]
fn test_unclassifiable_findings_cannot_match_a_baseline() {
    // Even if someone hand-edits a baseline with a bogus entry, an
    // unclassifiable finding still comes out unmatched.
    let baseline = baseline_of(&["weird|hand-edited|entry"]);
    let findings = vec![finding("totally unparseable")];
    let partitioned = partition_findings(&findings, Some(&baseline));
    assert!(partitioned.baselined.is_empty());
    assert_eq!(partitioned.unmatched.len(), 1);
    assert_eq!(
        partitioned.stale_entries,
        vec!["weird|hand-edited|entry".to_string()]
    );
}

#[test]
fn test_regenerate_records_classifiable_and_reports_the_rest() {
    let findings = vec![
        finding("onchain/a.rs:1: fn foo has no doc comment at all"),
        finding("onchain/a.rs:2: fn foo has no doc comment at all"), // duplicate identity
        finding("unparseable garbage"),
    ];
    let (baseline, unclassified) = BaselineFile::regenerate(&findings);
    assert_eq!(baseline.violations.len(), 1, "duplicates must be deduped");
    assert!(baseline.violations.contains("onchain/a.rs|fn-undocumented|foo"));
    assert_eq!(baseline.version, BASELINE_VERSION);
    assert!(baseline.updated.is_some());
    assert_eq!(unclassified.len(), 1);
}

#[test]
fn test_load_missing_file_is_none() {
    assert!(BaselineFile::load(None).unwrap().is_none());
}

#[test]
fn test_load_rejects_wrong_schema_version() {
    let mut document = baseline_of(&[]);
    document.version = 999;
    assert!(BaselineFile::load(Some(Ok(document))).is_err());
}

#[test]
fn test_load_rejects_non_json() {
    let reason = "expected ident at line 1 column 2".to_string();
    assert!(BaselineFile::load(Some(Err(reason))).is_err());
}

#[test]
fn load_accepts_its_own_version() {
    let document = baseline_of(&["a|fn-undocumented|b"]);
    let loaded = BaselineFile::load(Some(Ok(document.clone()))).unwrap().unwrap();
    assert_eq!(loaded, document);
    assert_eq!(default_version(), 1);
}

#[test]
fn load_errors_say_what_is_wrong() {
    assert_eq!(
        BaselineError::Malformed("expected value".to_string()).message("b.json"),
        "b.json is not a valid doc_checker baseline: expected value"
    );
    assert_eq!(
        BaselineError::WrongVersion(999).message("b.json"),
        "b.json has baseline version 999 but this build understands version 1"
    );
    assert_eq!(
        BaselineFile::load(Some(Err("x".to_string()))),
        Err(BaselineError::Malformed("x".to_string()))
    );
    let mut newer = baseline_of(&[]);
    newer.version = 2;
    assert_eq!(
        BaselineFile::load(Some(Ok(newer))),
        Err(BaselineError::WrongVersion(2))
    );
}

#[test]
fn saved_text_ends_with_a_line_feed() {
    assert_eq!(BaselineFile::save("{}".to_string()), "{}\n");
}

#[test]
fn default_path_is_next_to_the_manifest() {
    assert_eq!(
        default_baseline_path("/repo/tools/doc_checker"),
        "/repo/tools/doc_checker/baseline.json"
    );
}

#[test]
fn violations_are_listed_in_order_and_once() {
    let list: Vec<String> = ["b", "a", "b", "a/é", "a/z", ""].iter().map(|e| e.to_string()).collect();
    let set = ViolationSet::from_list(&list);
    assert_eq!(set.to_list(), vec!["", "a", "a/z", "a/é", "b"]);
    assert_eq!(set.len(), 5);
    assert!(set.contains("a/z"));
    assert!(!set.contains("z"));
    let mut reversed = list.clone();
    reversed.reverse();
    assert_eq!(ViolationSet::from_list(&reversed), set);
}

#[test]
fn regenerated_baseline_covers_its_findings() {
    let findings = vec![
        finding("docs/a.md: orphaned doc - not reachable from README.md or any docs index file"),
        finding("onchain/a.rs:7: error enum E variant V has no doc comment"),
        finding("something else"),
    ];
    let (baseline, unclassified) =
        BaselineFile::regenerate_on(&findings, "2026-09-25".to_string());
    assert_eq!(
        baseline.violations.to_list(),
        vec!["docs/a.md|orphaned-doc|docs/a.md", "onchain/a.rs|error-variant|E::V"]
    );
    assert_eq!(baseline.updated, Some("2026-09-25".to_string()));
    assert_eq!(unclassified[0].message, "something else");
    let parts = partition_findings(&findings, Some(&baseline));
    assert_eq!(parts.baselined.len(), 2);
    assert_eq!(parts.unmatched.len(), 1);
    assert_eq!(parts.unmatched[0].message, "something else");
    assert!(parts.stale_entries.is_empty());
}

#[test]
fn moved_finding_stays_baselined() {
    let baseline = baseline_of(&["onchain/a.rs|fn-undocumented|foo"]);
    for line in ["1", "23", "456"] {
        let message = format!("../../onchain/a.rs:{}: fn foo has no doc comment at all", line);
        let parts = partition_findings(&[finding(&message)], Some(&baseline));
        assert_eq!(parts.baselined.len(), 1);
        assert_eq!(parts.baselined[0].message, message);
        assert!(parts.unmatched.is_empty());
    }
}

#[test]
fn empty_values() {
    let file = BaselineFile::default();
    assert_eq!(file.version, 0);
    assert!(file.updated.is_none());
    assert_eq!(file.violations.len(), 0);
    let parts = Partitioned::default();
    assert!(parts.baselined.is_empty() && parts.unmatched.is_empty());
    assert!(parts.stale_entries.is_empty());
}

#[test]
fn written_document_has_the_current_version() {
    let written = BaselineFile::default().document();
    assert_eq!(written.version, BASELINE_VERSION);
    assert_eq!(BaselineFile::load(Some(Ok(written.clone()))), Ok(Some(written)));
    let mut older = baseline_of(&["a|fn-undocumented|b"]);
    older.version = 7;
    older.updated = Some("2026-09-25".to_string());
    let written = older.document();
    assert_eq!(written.version, 1);
    assert_eq!(written.updated, older.updated);
    assert_eq!(written.violations, older.violations);
}
