//! Gathering findings, and reporting them.

use crate::baseline::{
    baselined_findings, is_baselined, law_baselined_findings_warn,
    law_new_violations_stay_unmatched, law_unmatched_findings_are_new, unmatched_findings,
    Partitioned,
};
use crate::checks::{all_fail, check_docs, law_strict_source_findings_fail, source_findings};
use crate::files::{
    borrowed_file_views, file_paths, law_same_files_are_sorted_alike, sort_files, sorted_files,
    text_file_views, TextFile, TextFileView,
};
use crate::findings::{finding_views, CheckConfig, Finding, FindingView, Severity};
use crate::order::{are_distinct_paths, sort_paths};
use crate::orphans::{
    check_orphaned_docs, doc_paths, doc_views, law_orphans_ignore_listing_order, orphan_findings,
    orphans, DocFile, DocFileView,
};
use crate::references::{
    check_stale_doc_references, known_functions, law_stale_references_ignore_listing_order,
    stale_findings, stale_references, DocTree,
};
use crate::text::{decimal, to_decimal, views};
use vstd::prelude::*;
use vstd::string::*;

verus! {

// ---------------------------------------------------------------------------
// Gathering
// ---------------------------------------------------------------------------

/// The findings on contract sources, file by file.
pub open spec fn contract_findings(files: Seq<TextFileView>, config: CheckConfig) -> Seq<
    FindingView,
>
    decreases files.len(),
{
    if files.len() == 0 {
        seq![]
    } else {
        contract_findings(files.drop_last(), config) + source_findings(
            files.last().text,
            files.last().path,
            config,
        )
    }
}

/// The findings on stale references, where there is a tree.
pub open spec fn tree_findings(
    repo_root: Seq<char>,
    tree: Option<&DocTree>,
    config: CheckConfig,
) -> Seq<FindingView> {
    match tree {
        Some(t) => stale_findings(
            repo_root,
            stale_references(
                sort_files(text_file_views(t.docs@)),
                known_functions(views(t.sources@)),
            ),
            config,
        ),
        None => seq![],
    }
}

/// Adds `more` to `findings`.
fn extend(findings: &mut Vec<Finding>, more: Vec<Finding>)
    ensures
        finding_views(final(findings)@) == finding_views(old(findings)@) + finding_views(more@),
{
    let mut more: Vec<Finding> = more;
    let ghost before = finding_views(findings@);
    let ghost added = finding_views(more@);
    findings.append(&mut more);
    assert(finding_views(findings@) =~= before + added);
}

/// Gathers the findings of all rules in a stable order: those on the contract
/// files, in the order of their paths, then those on orphaned documents, then
/// those on stale references.
pub fn collect_findings(
    contracts: &Vec<TextFile>,
    repo_root: &str,
    docs: &Vec<DocFile>,
    reached: &Vec<String>,
    tree: Option<&DocTree>,
    config: &CheckConfig,
) -> (findings: Vec<Finding>)
    ensures
        finding_views(findings@) == contract_findings(
            sort_files(text_file_views(contracts@)),
            *config,
        ) + orphan_findings(
            repo_root@,
            sort_paths(orphans(doc_views(docs@), views(reached@))),
            *config,
        ) + tree_findings(repo_root@, tree, *config),
{
    let mut findings: Vec<Finding> = Vec::new();
    let contracts: Vec<&TextFile> = sorted_files(contracts);
    let ghost all = borrowed_file_views(contracts@);
    let mut i: usize = 0;
    assert(finding_views(findings@) =~= Seq::empty());
    while i < contracts.len()
        invariant
            i <= contracts@.len(),
            all == borrowed_file_views(contracts@),
            finding_views(findings@) == contract_findings(all.take(i as int), *config),
        decreases contracts@.len() - i,
    {
        proof {
            assert(all.take(i + 1).drop_last() =~= all.take(i as int));
            assert(all.take(i + 1).last() == contracts@[i as int]@);
        }
        let more: Vec<Finding> = check_docs(&contracts[i].text, &contracts[i].path, config);
        extend(&mut findings, more);
        i = i + 1;
    }
    assert(all.take(all.len() as int) =~= all);
    extend(&mut findings, check_orphaned_docs(repo_root, docs, reached, config));
    extend(&mut findings, check_stale_doc_references(repo_root, tree, config));
    findings
}

/// The findings are the same, and in the same order, whatever the order in
/// which the contract files, the documents and the sources were found, as
/// long as each path was found once.
pub proof fn law_findings_ignore_listing_order(
    contracts: Seq<TextFileView>,
    other_contracts: Seq<TextFileView>,
    repo_root: Seq<char>,
    docs: Seq<DocFileView>,
    other_docs: Seq<DocFileView>,
    reached: Seq<Seq<char>>,
    other_reached: Seq<Seq<char>>,
    tree: DocTree,
    other_tree: DocTree,
    config: CheckConfig,
)
    requires
        are_distinct_paths(file_paths(contracts)),
        are_distinct_paths(file_paths(other_contracts)),
        forall|file: TextFileView| #[trigger]
            contracts.contains(file) <==> other_contracts.contains(file),
        are_distinct_paths(doc_paths(docs)),
        are_distinct_paths(doc_paths(other_docs)),
        forall|doc: DocFileView| #[trigger] docs.contains(doc) <==> other_docs.contains(doc),
        forall|file: Seq<char>| #[trigger] reached.contains(file) <==> other_reached.contains(file),
        are_distinct_paths(file_paths(text_file_views(tree.docs@))),
        are_distinct_paths(file_paths(text_file_views(other_tree.docs@))),
        forall|file: TextFileView| #[trigger]
            text_file_views(tree.docs@).contains(file) <==> text_file_views(
                other_tree.docs@,
            ).contains(file),
        forall|text: Seq<char>| #[trigger]
            views(tree.sources@).contains(text) <==> views(other_tree.sources@).contains(text),
    ensures
        contract_findings(sort_files(contracts), config) == contract_findings(
            sort_files(other_contracts),
            config,
        ),
        orphan_findings(repo_root, sort_paths(orphans(docs, reached)), config) == orphan_findings(
            repo_root,
            sort_paths(orphans(other_docs, other_reached)),
            config,
        ),
        tree_findings(repo_root, Some(&tree), config) == tree_findings(
            repo_root,
            Some(&other_tree),
            config,
        ),
{
    law_same_files_are_sorted_alike(contracts, other_contracts);
    law_orphans_ignore_listing_order(docs, other_docs, reached, other_reached);
    law_stale_references_ignore_listing_order(
        text_file_views(tree.docs@),
        text_file_views(other_tree.docs@),
        views(tree.sources@),
        views(other_tree.sources@),
    );
}

/// Under `--strict` every finding fails the run.
pub proof fn law_strict_findings_fail(
    contracts: Seq<TextFileView>,
    repo_root: Seq<char>,
    orphaned: Seq<Seq<char>>,
    tree: Option<&DocTree>,
    config: CheckConfig,
)
    requires
        config.new_check_severity == Severity::Fail,
    ensures
        all_fail(
            contract_findings(contracts, config) + orphan_findings(repo_root, orphaned, config)
                + tree_findings(repo_root, tree, config),
        ),
    decreases contracts.len(),
{
    lemma_strict_contracts(contracts, config);
}

proof fn lemma_strict_contracts(contracts: Seq<TextFileView>, config: CheckConfig)
    requires
        config.new_check_severity == Severity::Fail,
    ensures
        all_fail(contract_findings(contracts, config)),
    decreases contracts.len(),
{
    if contracts.len() > 0 {
        lemma_strict_contracts(contracts.drop_last(), config);
        law_strict_source_findings_fail(contracts.last().text, contracts.last().path, config);
    }
}

// ---------------------------------------------------------------------------
// Reporting
// ---------------------------------------------------------------------------

/// How a finding is printed.
pub open spec fn finding_line(finding: FindingView) -> Seq<char> {
    match finding.severity {
        Severity::Warn => "warning"@ + ": "@ + finding.message,
        Severity::Fail => "error"@ + ": "@ + finding.message,
    }
}

/// How a stale entry of the baseline is printed.
pub open spec fn stale_line(entry: Seq<char>) -> Seq<char> {
    "warning: stale baseline entry (violation appears fixed): "@ + entry
}

/// The last line of a report.
pub open spec fn summary_line(failures: nat, warnings: nat) -> Seq<char> {
    "Documentation findings: "@ + decimal(failures) + " error(s), "@ + decimal(warnings)
        + " warning(s)"@
}

/// The number of findings with a severity.
pub open spec fn count(findings: Seq<FindingView>, severity: Severity) -> nat
    decreases findings.len(),
{
    if findings.len() == 0 {
        0
    } else if findings.last().severity == severity {
        count(findings.drop_last(), severity) + 1
    } else {
        count(findings.drop_last(), severity)
    }
}

/// What is printed, and what it adds up to.
#[derive(Debug)]
pub struct Report {
    /// A line for each finding and each stale entry of the baseline.
    pub lines: Vec<String>,
    /// The number of findings that fail the run.
    pub failures: usize,
    /// The number of findings that only warn, and of stale entries.
    pub warnings: usize,
}

/// The report on findings and stale entries.
pub open spec fn is_report(
    report: Report,
    findings: Seq<FindingView>,
    stale_entries: Seq<Seq<char>>,
) -> bool {
    &&& views(report.lines@) == findings.map_values(|f: FindingView| finding_line(f))
        + stale_entries.map_values(|entry: Seq<char>| stale_line(entry))
    &&& report.failures == count(findings, Severity::Fail)
    &&& report.warnings == count(findings, Severity::Warn) + stale_entries.len()
}

/// The findings of a split, in the order in which they are printed.
pub open spec fn reported(parts: Partitioned) -> Seq<FindingView> {
    finding_views(parts.baselined@) + finding_views(parts.unmatched@)
}

/// Every finding is counted once.
proof fn lemma_counts_add_up(findings: Seq<FindingView>)
    ensures
        count(findings, Severity::Warn) + count(findings, Severity::Fail) == findings.len(),
    decreases findings.len(),
{
    if findings.len() > 0 {
        lemma_counts_add_up(findings.drop_last());
    }
}

/// The line for one finding.
pub fn report_finding(finding: &Finding) -> (line: String)
    ensures
        line@ == finding_line(finding@),
{
    let mut line: String = match finding.severity {
        Severity::Warn => "warning".to_owned(),
        Severity::Fail => "error".to_owned(),
    };
    line.append(": ");
    line.append(&finding.message);
    line
}

/// Adds the lines and the counts of `findings` to a report.
fn add_findings(report: &mut Report, findings: &Vec<Finding>, Ghost(before): Ghost<Seq<FindingView>>)
    requires
        is_report(*old(report), before, Seq::empty()),
    ensures
        is_report(*final(report), before + finding_views(findings@), Seq::empty()),
{
    let ghost all = finding_views(findings@);
    let ghost none: Seq<Seq<char>> = Seq::empty();
    let mut i: usize = 0;
    assert(before + all.take(0) =~= before);
    while i < findings.len()
        invariant
            i <= findings@.len(),
            all == finding_views(findings@),
            none == Seq::<Seq<char>>::empty(),
            is_report(*report, before + all.take(i as int), none),
        decreases findings@.len() - i,
    {
        let ghost so_far = before + all.take(i as int);
        let ghost with_next = before + all.take(i + 1);
        let ghost lines = views(report.lines@);
        report.lines.push(report_finding(&findings[i]));
        let length: usize = report.lines.len();
        proof {
            assert(with_next.drop_last() =~= so_far);
            assert(with_next.last() == findings@[i as int]@);
            lemma_counts_add_up(so_far);
            assert(views(report.lines@) =~= lines.push(finding_line(findings@[i as int]@)));
            assert(lines.len() == so_far.len());
        }
        match findings[i].severity {
            Severity::Warn => {
                report.warnings = report.warnings + 1;
            },
            Severity::Fail => {
                report.failures = report.failures + 1;
            },
        }
        assert(views(report.lines@) =~= with_next.map_values(|f: FindingView| finding_line(f))
            + none.map_values(|entry: Seq<char>| stale_line(entry)));
        i = i + 1;
    }
    assert(all.take(all.len() as int) =~= all);
}

/// Reports a split: the baselined findings, the others, and then the entries
/// of the baseline that match nothing any more.
pub fn make_report(parts: &Partitioned) -> (report: Report)
    ensures
        is_report(report, reported(*parts), views(parts.stale_entries@)),
{
    let mut report: Report = Report { lines: Vec::new(), failures: 0, warnings: 0 };
    let ghost none: Seq<Seq<char>> = Seq::empty();
    let ghost nothing: Seq<FindingView> = Seq::empty();
    proof {
        assert(views(report.lines@) =~= nothing.map_values(|f: FindingView| finding_line(f))
            + none.map_values(|entry: Seq<char>| stale_line(entry)));
        assert(nothing + finding_views(parts.baselined@) =~= finding_views(parts.baselined@));
    }
    add_findings(&mut report, &parts.baselined, Ghost(nothing));
    add_findings(&mut report, &parts.unmatched, Ghost(finding_views(parts.baselined@)));
    let ghost findings = reported(*parts);
    let ghost all = views(parts.stale_entries@);
    let entries: &Vec<String> = &parts.stale_entries;
    let mut i: usize = 0;
    assert(all.take(0) =~= none);
    while i < entries.len()
        invariant
            i <= entries@.len(),
            all == views(entries@),
            is_report(report, findings, all.take(i as int)),
        decreases entries@.len() - i,
    {
        let ghost lines = views(report.lines@);
        let mut line: String = "warning: stale baseline entry (violation appears fixed): ".to_owned();
        line.append(&entries[i]);
        report.lines.push(line);
        let length: usize = report.lines.len();
        proof {
            lemma_counts_add_up(findings);
            assert(views(report.lines@) =~= lines.push(stale_line(entries@[i as int]@)));
            assert(lines.len() == findings.len() + i);
            assert(all.take(i + 1) =~= all.take(i as int).push(entries@[i as int]@));
        }
        report.warnings = report.warnings + 1;
        assert(views(report.lines@) =~= findings.map_values(|f: FindingView| finding_line(f))
            + all.take(i + 1).map_values(|entry: Seq<char>| stale_line(entry)));
        i = i + 1;
    }
    assert(all.take(all.len() as int) =~= all);
    report
}

impl Report {
    /// Whether the run fails.
    pub fn failed(&self) -> (failed: bool)
        ensures
            failed == (self.failures > 0),
    {
        self.failures > 0
    }

    /// The last line.
    pub fn summary(&self) -> (line: String)
        ensures
            line@ == summary_line(self.failures as nat, self.warnings as nat),
    {
        let mut line: String = "Documentation findings: ".to_owned();
        line.append(&to_decimal(self.failures as u64));
        line.append(" error(s), ");
        line.append(&to_decimal(self.warnings as u64));
        line.append(" warning(s)");
        line
    }
}

/// The line on a finding that a new baseline does not record.
pub fn unclassified_line(finding: &Finding) -> (line: String)
    ensures
        line@ == "warning: could not classify, NOT added to baseline: "@ + finding@.message,
{
    let mut line: String = "warning: could not classify, NOT added to baseline: ".to_owned();
    line.append(&finding.message);
    line
}

/// The line on a new baseline.
pub fn written_line(path: &str, entries: usize, unclassified: usize) -> (line: String)
    ensures
        line@ == "Baseline written to "@ + path@ + " ("@ + decimal(entries as nat)
            + " entrie(s)); unclassified findings: "@ + decimal(unclassified as nat),
{
    let mut line: String = "Baseline written to ".to_owned();
    line.append(path);
    line.append(" (");
    line.append(&to_decimal(entries as u64));
    line.append(" entrie(s)); unclassified findings: ");
    line.append(&to_decimal(unclassified as u64));
    line
}

// ---------------------------------------------------------------------------
// Laws
// ---------------------------------------------------------------------------

/// Some finding has the severity exactly if it is counted.
proof fn lemma_counted(findings: Seq<FindingView>, severity: Severity)
    ensures
        count(findings, severity) > 0 <==> exists|i: int|
            0 <= i < findings.len() && (#[trigger] findings[i]).severity == severity,
    decreases findings.len(),
{
    if findings.len() > 0 {
        let front = findings.drop_last();
        lemma_counted(front, severity);
        if count(front, severity) > 0 {
            let i = choose|i: int|
                0 <= i < front.len() && (#[trigger] front[i]).severity == severity;
            assert(findings[i].severity == severity);
        }
        if findings.last().severity == severity {
            assert(findings[findings.len() - 1].severity == severity);
        }
        if exists|i: int|
            0 <= i < findings.len() && (#[trigger] findings[i]).severity == severity {
            let i = choose|i: int|
                0 <= i < findings.len() && (#[trigger] findings[i]).severity == severity;
            if i < front.len() {
                assert(front[i].severity == severity);
            }
        }
    }
}

/// A run without a baseline fails exactly if there is a finding that is an
/// error.
pub proof fn law_run_without_baseline_fails_on_errors(report: Report, findings: Seq<FindingView>)
    requires
        is_report(report, findings, Seq::empty()),
    ensures
        report.failures > 0 <==> exists|k: int|
            0 <= k < findings.len() && (#[trigger] findings[k]).severity == Severity::Fail,
{
    lemma_counted(findings, Severity::Fail);
}

/// A run against a baseline fails exactly if there is a finding that is an
/// error and has no entry in it. Whatever has an entry only warns, and so
/// does an entry that matches nothing any more.
pub proof fn law_run_fails_on_new_errors(
    report: Report,
    findings: Seq<FindingView>,
    entries: Seq<Seq<char>>,
    stale_entries: Seq<Seq<char>>,
)
    requires
        is_report(
            report,
            baselined_findings(findings, entries) + unmatched_findings(findings, entries),
            stale_entries,
        ),
    ensures
        report.failures > 0 <==> exists|k: int|
            0 <= k < findings.len() && (#[trigger] findings[k]).severity == Severity::Fail
                && !is_baselined(findings[k].message, entries),
{
    let left = baselined_findings(findings, entries);
    let right = unmatched_findings(findings, entries);
    let all = left + right;
    lemma_counted(all, Severity::Fail);
    if report.failures > 0 {
        let i = choose|i: int|
            0 <= i < all.len() && (#[trigger] all[i]).severity == Severity::Fail;
        if i < left.len() {
            law_baselined_findings_warn(findings, entries, i);
        } else {
            let j = i - left.len();
            law_unmatched_findings_are_new(findings, entries, j);
            let k = choose|k: int| 0 <= k < findings.len() && findings[k] == right[j];
            assert(findings[k].severity == Severity::Fail);
        }
    }
    if exists|k: int|
        0 <= k < findings.len() && (#[trigger] findings[k]).severity == Severity::Fail
            && !is_baselined(findings[k].message, entries) {
        let k = choose|k: int|
            0 <= k < findings.len() && (#[trigger] findings[k]).severity == Severity::Fail
                && !is_baselined(findings[k].message, entries);
        law_new_violations_stay_unmatched(findings, entries, k);
        let j = choose|j: int| 0 <= j < right.len() && right[j] == findings[k];
        assert(all[left.len() + j].severity == Severity::Fail);
    }
}

/// Under `--strict` a run against a baseline fails exactly if there is a
/// finding without an entry in it.
pub proof fn law_strict_run_fails_on_new_findings(
    report: Report,
    findings: Seq<FindingView>,
    entries: Seq<Seq<char>>,
    stale_entries: Seq<Seq<char>>,
)
    requires
        all_fail(findings),
        is_report(
            report,
            baselined_findings(findings, entries) + unmatched_findings(findings, entries),
            stale_entries,
        ),
    ensures
        report.failures > 0 <==> exists|k: int|
            0 <= k < findings.len() && !is_baselined(#[trigger] findings[k].message, entries),
{
    law_run_fails_on_new_errors(report, findings, entries, stale_entries);
    if exists|k: int|
        0 <= k < findings.len() && !is_baselined(#[trigger] findings[k].message, entries) {
        let k = choose|k: int|
            0 <= k < findings.len() && !is_baselined(#[trigger] findings[k].message, entries);
        assert(findings[k].severity == Severity::Fail);
    }
}

} // verus!
