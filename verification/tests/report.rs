use doc_checker::baseline::{partition_findings, BaselineFile};
use doc_checker::cli::parse_args;
use doc_checker::orphans::DocFile;
use doc_checker::files::TextFile;
use doc_checker::references::DocTree;
use doc_checker::report::{collect_findings, make_report, unclassified_line, written_line};
use doc_checker::{CheckConfig, Finding, Severity};

fn args(list: &[&str]) -> Vec<String> {
    let mut all = vec!["doc_checker".to_string()];
    all.extend(list.iter().map(|s| s.to_string()));
    all
}

fn finding(severity: Severity, msg: &str) -> Finding {
    Finding { severity, message: msg.to_string() }
}

#[test]
fn no_options_mean_defaults() {
    let options = parse_args(&args(&[]));
    let config = CheckConfig::default();
    assert!(!options.help && !options.update_baseline && options.baseline.is_none());
    assert_eq!(options.config.check_events, config.check_events);
    assert_eq!(options.config.check_undocumented_fns, config.check_undocumented_fns);
    assert_eq!(options.config.check_error_enums, config.check_error_enums);
    assert_eq!(options.config.check_orphaned_docs, config.check_orphaned_docs);
    assert_eq!(options.config.check_stale_refs, config.check_stale_refs);
    assert_eq!(options.config.new_check_severity, Severity::Warn);
}

#[test]
fn every_option_is_read() {
    let options = parse_args(&args(&[
        "--strict",
        "-e",
        "--no-undocumented-fns",
        "--no-error-enums",
        "--no-orphaned-docs",
        "--no-stale-refs",
        "--update-baseline",
        "--baseline",
        "b.json",
        "--unknown",
    ]));
    assert!(options.config.check_events);
    assert!(!options.config.check_undocumented_fns);
    assert!(!options.config.check_error_enums);
    assert!(!options.config.check_orphaned_docs);
    assert!(!options.config.check_stale_refs);
    assert_eq!(options.config.new_check_severity, Severity::Fail);
    assert!(options.update_baseline);
    assert_eq!(options.baseline, Some("b.json".to_string()));
    assert!(parse_args(&args(&["--events"])).config.check_events);
    assert!(parse_args(&args(&["--help"])).help);
    assert!(parse_args(&args(&["-h"])).help);
}

#[test]
fn baseline_option_takes_the_next_argument() {
    assert_eq!(parse_args(&args(&["--baseline"])).baseline, None);
    assert_eq!(
        parse_args(&args(&["--baseline", "--strict", "--baseline", "x"])).baseline,
        Some("--strict".to_string())
    );
}

#[test]
fn findings_come_in_a_stable_order() {
    let contracts = vec![
        TextFile {
            path: "../../onchain/contracts/a.rs".to_string(),
            text: "#[contracterror] pub enum E { V }".to_string(),
        },
        TextFile { path: "../../onchain/contracts/b.rs".to_string(), text: "not rust".to_string() },
    ];
    let docs = vec![DocFile { path: "../../docs/x.md".to_string(), canonical: "/r/docs/x.md".to_string() }];
    let tree = DocTree {
        docs: vec![TextFile { path: "../../docs/x.md".to_string(), text: "`gone`".to_string() }],
        sources: vec![],
    };
    let config = CheckConfig { new_check_severity: Severity::Fail, ..CheckConfig::default() };
    let findings = collect_findings(&contracts, "../..", &docs, &vec![], Some(&tree), &config);
    let messages: Vec<&str> = findings.iter().map(|f| f.message.as_str()).collect();
    assert_eq!(
        messages,
        vec![
            "../../onchain/contracts/a.rs:1: error enum E variant V has no doc comment",
            "docs/x.md: orphaned doc - not reachable from README.md or any docs index file",
            "docs/x.md:1: stale doc reference to `gone` – no matching pub fn found in contracts",
        ]
    );
    assert!(findings.iter().all(|f| f.severity == Severity::Fail));
    let (baseline, unclassified) = BaselineFile::regenerate(&findings);
    assert!(unclassified.is_empty());
    assert_eq!(
        baseline.violations.to_list(),
        vec![
            "docs/x.md|orphaned-doc|docs/x.md",
            "docs/x.md|stale-ref|gone",
            "onchain/contracts/a.rs|error-variant|E::V",
        ]
    );
}

#[test]
fn listing_order_makes_no_difference() {
    let file = |path: &str, text: &str| TextFile { path: path.to_string(), text: text.to_string() };
    let doc = |path: &str| DocFile { path: path.to_string(), canonical: path.to_string() };
    let error = "#[contracterror] pub enum E { V }";
    let config = CheckConfig::default();
    let mut all: Vec<Vec<String>> = Vec::new();
    for turned in [false, true] {
        let mut contracts = vec![file("c/a-b.rs", error), file("c/a/b.rs", error)];
        let mut docs = vec![doc("r/docs/x.md"), doc("r/docs/w.md")];
        let mut texts = vec![file("r/docs/x.md", "`gone`"), file("r/docs/w.md", "`gone` `f`")];
        let mut sources = vec!["pub fn f() {}".to_string(), "pub fn g() {}".to_string()];
        if turned {
            contracts.reverse();
            docs.reverse();
            texts.reverse();
            sources.reverse();
        }
        let tree = DocTree { docs: texts, sources };
        let findings = collect_findings(&contracts, "r", &docs, &vec![], Some(&tree), &config);
        all.push(findings.into_iter().map(|f| f.message).collect());
    }
    assert_eq!(all[0], all[1]);
    assert_eq!(all[0][0], "c/a/b.rs:1: error enum E variant V has no doc comment");
    assert_eq!(all[0].len(), 6);
    assert!(all[0][2].starts_with("docs/w.md: orphaned doc"));
    assert!(all[0][4].starts_with("docs/w.md:1: stale doc reference to `gone`"));
}

#[test]
fn report_counts_and_lists() {
    let findings = vec![
        finding(Severity::Fail, "a.rs:1: fn old has no doc comment at all"),
        finding(Severity::Fail, "a.rs:2: fn new has no doc comment at all"),
        finding(Severity::Warn, "docs/x.md: orphaned doc - y"),
    ];
    let (mut baseline, _) = BaselineFile::regenerate(&findings[..1]);
    baseline.violations.insert("gone|fn-undocumented|f".to_string());
    let report = make_report(&partition_findings(&findings, Some(&baseline)));
    assert_eq!(
        report.lines,
        vec![
            "warning: a.rs:1: fn old has no doc comment at all",
            "error: a.rs:2: fn new has no doc comment at all",
            "warning: docs/x.md: orphaned doc - y",
            "warning: stale baseline entry (violation appears fixed): gone|fn-undocumented|f",
        ]
    );
    assert_eq!(report.summary(), "Documentation findings: 1 error(s), 3 warning(s)");
    assert!(report.failed());
}

#[test]
fn baselined_findings_do_not_fail_the_run() {
    let findings = vec![finding(Severity::Fail, "a.rs:1: fn old has no doc comment at all")];
    let (baseline, _) = BaselineFile::regenerate(&findings);
    let report = make_report(&partition_findings(&findings, Some(&baseline)));
    assert!(!report.failed());
    assert_eq!(report.warnings, 1);
    assert!(make_report(&partition_findings(&findings, None)).failed());
    assert!(!make_report(&partition_findings(&[], None)).failed());
}

#[test]
fn lines_on_a_new_baseline() {
    assert_eq!(
        unclassified_line(&finding(Severity::Fail, "odd")),
        "warning: could not classify, NOT added to baseline: odd"
    );
    assert_eq!(
        written_line("b.json", 12, 0),
        "Baseline written to b.json (12 entrie(s)); unclassified findings: 0"
    );
}
