//! How findings are held against a baseline, and what a baseline records.

use crate::baseline::{
    accepted, baselined_findings, borrowed_views, error_text, is_current, is_document_of,
    is_partition, records, stale, unclassified_findings, unmatched_findings, BaselineError,
    BaselineFile, Partitioned,
};
use crate::findings::{finding_views, Finding, FindingView, Severity};
use crate::identity::identity;
use crate::order::text_before;
use crate::text::{decimal, opt_view, views};
use vstd::prelude::*;

verus! {

/// The identity of the message is one of the entries.
pub open spec fn is_entered(message: Seq<char>, entries: Seq<Seq<char>>) -> bool {
    exists|k: int| 0 <= k < entries.len() && identity(message) == Some(#[trigger] entries[k])
}

/// Some finding has this identity.
pub open spec fn has_finding(entry: Seq<char>, findings: Seq<FindingView>) -> bool {
    exists|k: int| 0 <= k < findings.len() && identity(#[trigger] findings[k].message) == Some(entry)
}

/// Every finding is judged on its own, whatever the other findings are. If
/// its identity is an entry of the baseline it is baselined, with its message
/// and as a warning, and not unmatched; otherwise it is unmatched, as it is,
/// and not baselined.
pub proof fn law_every_finding_is_held_against_the_baseline(
    a: Seq<FindingView>,
    finding: FindingView,
    b: Seq<FindingView>,
    entries: Seq<Seq<char>>,
)
    ensures
        baselined_findings(Seq::empty(), entries) == Seq::<FindingView>::empty(),
        unmatched_findings(Seq::empty(), entries) == Seq::<FindingView>::empty(),
        is_entered(finding.message, entries) ==> {
            &&& baselined_findings(a + seq![finding] + b, entries) == baselined_findings(a, entries)
                + seq![FindingView { severity: Severity::Warn, message: finding.message }]
                + baselined_findings(b, entries)
            &&& unmatched_findings(a + seq![finding] + b, entries) == unmatched_findings(a, entries)
                + unmatched_findings(b, entries)
        },
        !is_entered(finding.message, entries) ==> {
            &&& baselined_findings(a + seq![finding] + b, entries) == baselined_findings(a, entries)
                + baselined_findings(b, entries)
            &&& unmatched_findings(a + seq![finding] + b, entries) == unmatched_findings(a, entries)
                + seq![finding] + unmatched_findings(b, entries)
        },
{
    let one = seq![finding];
    assert(one.drop_last() =~= Seq::empty());
    assert(baselined_findings(one.drop_last(), entries) =~= Seq::empty());
    assert(unmatched_findings(one.drop_last(), entries) =~= Seq::empty());
    lemma_split_add(a + one, b, entries);
    lemma_split_add(a, one, entries);
    if is_entered(finding.message, entries) {
        let k = choose|k: int|
            0 <= k < entries.len() && identity(finding.message) == Some(#[trigger] entries[k]);
        assert(entries.contains(entries[k]));
        assert(baselined_findings(one, entries) =~= seq![
            FindingView { severity: Severity::Warn, message: finding.message },
        ]);
        assert(unmatched_findings(a, entries) + unmatched_findings(one, entries)
            =~= unmatched_findings(a, entries));
    } else {
        if identity(finding.message) is Some && entries.contains(identity(finding.message)->0) {
            let own = identity(finding.message)->0;
            let k = choose|k: int| 0 <= k < entries.len() && entries[k] == own;
            assert(identity(finding.message) == Some(entries[k]));
        }
        assert(baselined_findings(a, entries) + baselined_findings(one, entries)
            =~= baselined_findings(a, entries));
        assert(unmatched_findings(one, entries) =~= one);
    }
}

proof fn lemma_split_add(a: Seq<FindingView>, b: Seq<FindingView>, entries: Seq<Seq<char>>)
    ensures
        baselined_findings(a + b, entries) == baselined_findings(a, entries) + baselined_findings(
            b,
            entries,
        ),
        unmatched_findings(a + b, entries) == unmatched_findings(a, entries) + unmatched_findings(
            b,
            entries,
        ),
    decreases b.len(),
{
    if b.len() == 0 {
        assert(a + b =~= a);
        assert(baselined_findings(a, entries) + baselined_findings(b, entries)
            =~= baselined_findings(a, entries));
        assert(unmatched_findings(a, entries) + unmatched_findings(b, entries)
            =~= unmatched_findings(a, entries));
    } else {
        lemma_split_add(a, b.drop_last(), entries);
        assert((a + b).drop_last() =~= a + b.drop_last());
        assert((a + b).last() == b.last());
        assert(baselined_findings(a + b, entries) =~= baselined_findings(a, entries)
            + baselined_findings(b, entries));
        assert(unmatched_findings(a + b, entries) =~= unmatched_findings(a, entries)
            + unmatched_findings(b, entries));
    }
}

/// Every entry of the baseline is judged on its own: it is stale exactly if
/// no finding has its identity.
pub proof fn law_every_entry_without_finding_is_stale(
    a: Seq<Seq<char>>,
    entry: Seq<char>,
    b: Seq<Seq<char>>,
    findings: Seq<FindingView>,
)
    ensures
        stale(Seq::empty(), findings) == Seq::<Seq<char>>::empty(),
        has_finding(entry, findings) ==> stale(a + seq![entry] + b, findings) == stale(a, findings)
            + stale(b, findings),
        !has_finding(entry, findings) ==> stale(a + seq![entry] + b, findings) == stale(a, findings)
            + seq![entry] + stale(b, findings),
{
    let one = seq![entry];
    assert(one.drop_last() =~= Seq::empty());
    assert(stale(one.drop_last(), findings) =~= Seq::empty());
    lemma_stale_add(a + one, b, findings);
    lemma_stale_add(a, one, findings);
    if has_finding(entry, findings) {
        let k = choose|k: int|
            0 <= k < findings.len() && identity(#[trigger] findings[k].message) == Some(entry);
        assert(identity(findings[k].message) == Some(entry));
        assert(stale(a, findings) + stale(one, findings) =~= stale(a, findings));
    } else {
        assert(stale(one, findings) =~= one);
    }
}

proof fn lemma_stale_add(a: Seq<Seq<char>>, b: Seq<Seq<char>>, findings: Seq<FindingView>)
    ensures
        stale(a + b, findings) == stale(a, findings) + stale(b, findings),
    decreases b.len(),
{
    if b.len() == 0 {
        assert(a + b =~= a);
        assert(stale(a, findings) + stale(b, findings) =~= stale(a, findings));
    } else {
        lemma_stale_add(a, b.drop_last(), findings);
        assert((a + b).drop_last() =~= a + b.drop_last());
        assert((a + b).last() == b.last());
        assert(stale(a + b, findings) =~= stale(a, findings) + stale(b, findings));
    }
}

/// A split consists of these three lists.
pub proof fn law_a_split_has_three_parts(
    parts: Partitioned,
    findings: Seq<FindingView>,
    entries: Seq<Seq<char>>,
)
    ensures
        is_partition(parts, findings, entries) <==> {
            &&& finding_views(parts.baselined@) == baselined_findings(findings, entries)
            &&& finding_views(parts.unmatched@) == unmatched_findings(findings, entries)
            &&& views(parts.stale_entries@) == stale(entries, findings)
        },
{
}

/// Every finding without an identity is left over, at its place, and no
/// other.
pub proof fn law_every_unclassified_finding_is_left_over(
    a: Seq<FindingView>,
    finding: FindingView,
    b: Seq<FindingView>,
)
    ensures
        unclassified_findings(Seq::empty()) == Seq::<FindingView>::empty(),
        identity(finding.message) is None ==> unclassified_findings(a + seq![finding] + b)
            == unclassified_findings(a) + seq![finding] + unclassified_findings(b),
        identity(finding.message) is Some ==> unclassified_findings(a + seq![finding] + b)
            == unclassified_findings(a) + unclassified_findings(b),
{
    let one = seq![finding];
    assert(one.drop_last() =~= Seq::empty());
    assert(unclassified_findings(one.drop_last()) =~= Seq::empty());
    lemma_unclassified_add(a + one, b);
    lemma_unclassified_add(a, one);
    if identity(finding.message) is None {
        assert(unclassified_findings(one) =~= one);
    } else {
        assert(unclassified_findings(a) + unclassified_findings(one) =~= unclassified_findings(a));
    }
}

proof fn lemma_unclassified_add(a: Seq<FindingView>, b: Seq<FindingView>)
    ensures
        unclassified_findings(a + b) == unclassified_findings(a) + unclassified_findings(b),
    decreases b.len(),
{
    if b.len() == 0 {
        assert(a + b =~= a);
        assert(unclassified_findings(a) + unclassified_findings(b) =~= unclassified_findings(a));
    } else {
        lemma_unclassified_add(a, b.drop_last());
        assert((a + b).drop_last() =~= a + b.drop_last());
        assert((a + b).last() == b.last());
        assert(unclassified_findings(a + b) =~= unclassified_findings(a) + unclassified_findings(
            b,
        ));
    }
}

/// A baseline that records findings has the current version, and holds the
/// identity of every finding that has one and nothing else, in dictionary
/// order and each once.
pub proof fn law_a_baseline_records_every_identity(
    baseline: BaselineFile,
    findings: Seq<FindingView>,
    entry: Seq<char>,
    i: int,
    j: int,
)
    requires
        records(baseline, findings),
    ensures
        baseline.version == 1,
        baseline.violations.listed().contains(entry) <==> has_finding(entry, findings),
        0 <= i < j < baseline.violations.listed().len() ==> text_before(
            baseline.violations.listed()[i],
            baseline.violations.listed()[j],
        ),
{
    if has_finding(entry, findings) {
        let k = choose|k: int|
            0 <= k < findings.len() && identity(#[trigger] findings[k].message) == Some(entry);
        assert(identity(findings[k].message) == Some(entry));
    }
    assert(baseline.violations.listed().contains(entry) <==> is_current(
        entry,
        findings,
    ));
}

/// No file means no baseline. A document is accepted as it is exactly if it
/// could be read and has version one, and its error says why not.
pub proof fn law_only_current_documents_are_accepted(file: BaselineFile, reason: String)
    ensures
        accepted(None) == Ok::<Option<BaselineFile>, BaselineError>(None),
        accepted(Some(Err(reason))) == Err::<Option<BaselineFile>, BaselineError>(
            BaselineError::Malformed(reason),
        ),
        file.version == 1 ==> accepted(Some(Ok(file))) == Ok::<Option<BaselineFile>, BaselineError>(
            Some(file),
        ),
        file.version != 1 ==> accepted(Some(Ok(file))) == Err::<
            Option<BaselineFile>,
            BaselineError,
        >(BaselineError::WrongVersion(file.version)),
{
}

/// What is said of a document that is not accepted.
pub proof fn law_errors_name_the_file_and_the_reason(path: Seq<char>, reason: String, version: u32)
    ensures
        error_text(BaselineError::Malformed(reason), path) == path
            + " is not a valid doc_checker baseline: "@ + reason@,
        error_text(BaselineError::WrongVersion(version), path) == path + " has baseline version "@
            + decimal(version as nat) + " but this build understands version "@ + decimal(1),
{
}

/// What is written has version one and keeps the date and all entries.
pub proof fn law_documents_keep_date_and_entries(written: BaselineFile, baseline: BaselineFile)
    requires
        is_document_of(written, baseline),
    ensures
        written.version == 1,
        opt_view(written.updated) == opt_view(baseline.updated),
        written.violations.listed() == baseline.violations.listed(),
{
}

/// The model of a list of borrowed findings holds each of them.
pub proof fn law_models_hold_every_finding(list: Seq<&Finding>, i: int)
    ensures
        borrowed_views(list).len() == list.len(),
        0 <= i < list.len() ==> borrowed_views(list)[i].message == list[i].message@,
        0 <= i < list.len() ==> borrowed_views(list)[i].severity == list[i].severity,
{
}

} // verus!
