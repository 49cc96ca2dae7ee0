//! Committed baseline of pre-existing documentation violations.
//!
//! # Semantics
//!
//! * A finding whose *identity* appears in the baseline is downgraded to a
//!   warning: it is still printed, but does not fail the run.
//! * A finding with no baseline entry fails the run (under `--strict`), so
//!   **the baseline cannot grow silently**: every new violation has a new
//!   identity and fails CI.
//! * Baseline entries that no longer match any current finding are
//!   reported as stale; they can only be removed by regenerating the
//!   baseline (an explicit, reviewable diff).
//!
//! # Fail-closed design
//!
//! A message that cannot be parsed into a stable identity is **never**
//! recorded into a baseline and never matches one, so unknown finding
//! formats always fail: the baseline can never accidentally swallow a
//! finding type it was not built for.

use crate::calendar::{is_date_of, iso_date_today};
use crate::checks::messages;
use crate::findings::{
    error_variant_message, event_field_message, event_variant_message, finding_views,
    fn_missing_message, fn_undocumented_message, stale_ref_message, Finding, FindingView, Severity,
};
use crate::identity::identity;
use crate::line_numbers::law_identity_ignores_line_numbers;
use crate::paths::{join_path, joined_path};
use crate::shape::is_name;
use crate::text::{decimal, opt_view, same_text, to_decimal, views};
use crate::violations::{is_ascending, ViolationSet};
use vstd::prelude::*;
use vstd::string::*;

pub use crate::calendar::iso_date;
pub use crate::identity::{finding_identity, normalize_file_part};

verus! {

/// Current schema version of the baseline format. Bumping this is a breaking
/// change and must be coordinated with a concurrent `--update-baseline` run.
pub const BASELINE_VERSION: u32 = 1;

/// The baseline document.
#[derive(Debug, PartialEq, Eq)]
pub struct BaselineFile {
    /// Schema version. Always [`BASELINE_VERSION`] on write; validated on load.
    pub version: u32,
    /// ISO date (`YYYY-MM-DD`, UTC) the baseline was last regenerated.
    pub updated: Option<String>,
    /// Set of baselined finding identities, deterministically ordered.
    pub violations: ViolationSet,
}

/// Result of splitting findings against a baseline.
#[derive(Debug)]
pub struct Partitioned {
    /// Findings present in the baseline, downgraded to [`Severity::Warn`].
    pub baselined: Vec<Finding>,
    /// Findings with no baseline entry; they keep their configured severity
    /// and fail the run when that severity is [`Severity::Fail`].
    pub unmatched: Vec<Finding>,
    /// Baseline identities that matched no current finding. Reported as
    /// stale; removal requires regenerating the baseline.
    pub stale_entries: Vec<String>,
}

// ---------------------------------------------------------------------------
// The split
// ---------------------------------------------------------------------------

/// The identity of the message is among `entries`.
pub open spec fn is_baselined(message: Seq<char>, entries: Seq<Seq<char>>) -> bool {
    match identity(message) {
        Some(own) => entries.contains(own),
        None => false,
    }
}

/// The findings among `entries`, as warnings.
pub open spec fn baselined_findings(findings: Seq<FindingView>, entries: Seq<Seq<char>>) -> Seq<
    FindingView,
>
    decreases findings.len(),
{
    if findings.len() == 0 {
        seq![]
    } else {
        let before = baselined_findings(findings.drop_last(), entries);
        let message = findings.last().message;
        if is_baselined(message, entries) {
            before.push(FindingView { severity: Severity::Warn, message })
        } else {
            before
        }
    }
}

/// The findings that are not among `entries`, as they are.
pub open spec fn unmatched_findings(findings: Seq<FindingView>, entries: Seq<Seq<char>>) -> Seq<
    FindingView,
>
    decreases findings.len(),
{
    if findings.len() == 0 {
        seq![]
    } else {
        let before = unmatched_findings(findings.drop_last(), entries);
        if is_baselined(findings.last().message, entries) {
            before
        } else {
            before.push(findings.last())
        }
    }
}

/// One of the findings has this identity.
pub open spec fn is_current(entry: Seq<char>, findings: Seq<FindingView>) -> bool {
    exists|i: int|
        0 <= i < findings.len() && identity(#[trigger] findings[i].message) == Some(entry)
}

/// The entries that are the identity of no finding.
pub open spec fn stale(entries: Seq<Seq<char>>, findings: Seq<FindingView>) -> Seq<Seq<char>>
    decreases entries.len(),
{
    if entries.len() == 0 {
        seq![]
    } else {
        let before = stale(entries.drop_last(), findings);
        if is_current(entries.last(), findings) {
            before
        } else {
            before.push(entries.last())
        }
    }
}

/// The findings without an identity.
pub open spec fn unclassified_findings(findings: Seq<FindingView>) -> Seq<FindingView>
    decreases findings.len(),
{
    if findings.len() == 0 {
        seq![]
    } else {
        let before = unclassified_findings(findings.drop_last());
        if identity(findings.last().message) is None {
            before.push(findings.last())
        } else {
            before
        }
    }
}

/// What splitting `findings` against a baseline with `entries` gives.
pub open spec fn is_partition(
    parts: Partitioned,
    findings: Seq<FindingView>,
    entries: Seq<Seq<char>>,
) -> bool {
    &&& finding_views(parts.baselined@) == baselined_findings(findings, entries)
    &&& finding_views(parts.unmatched@) == unmatched_findings(findings, entries)
    &&& views(parts.stale_entries@) == stale(entries, findings)
}

/// The identities of a list of findings.
fn identities(findings: &[Finding]) -> (list: Vec<Option<String>>)
    ensures
        list@.len() == findings@.len(),
        forall|i: int|
            0 <= i < list@.len() ==> opt_view(#[trigger] list@[i]) == identity(
                findings@[i].message@,
            ),
{
    let mut list: Vec<Option<String>> = Vec::new();
    let mut i: usize = 0;
    while i < findings.len()
        invariant
            i <= findings@.len(),
            list@.len() == i,
            forall|j: int|
                0 <= j < i ==> opt_view(#[trigger] list@[j]) == identity(findings@[j].message@),
        decreases findings@.len() - i,
    {
        list.push(finding_identity(&findings[i].message));
        i = i + 1;
    }
    list
}

/// Whether `entry` is one of the identities.
fn among(entry: &str, list: &Vec<Option<String>>) -> (found: bool)
    ensures
        found == exists|i: int|
            0 <= i < list@.len() && opt_view(#[trigger] list@[i]) == Some(entry@),
{
    let mut i: usize = 0;
    while i < list.len()
        invariant
            i <= list@.len(),
            forall|j: int| 0 <= j < i ==> opt_view(#[trigger] list@[j]) != Some(entry@),
        decreases list@.len() - i,
    {
        if let Some(own) = &list[i] {
            if same_text(own, entry) {
                assert(opt_view(list@[i as int]) == Some(entry@));
                return true;
            }
        }
        i = i + 1;
    }
    false
}

/// Splits `findings` into baselined vs unmatched, and reports baseline
/// entries that no longer match anything as stale. With `baseline == None`
/// every finding is unmatched (no baseline in effect).
pub fn partition_findings(findings: &[Finding], baseline: Option<&BaselineFile>) -> (parts:
    Partitioned)
    ensures
        match baseline {
            Some(file) => is_partition(parts, finding_views(findings@), file.violations.listed()),
            None => {
                &&& parts.baselined@.len() == 0
                &&& finding_views(parts.unmatched@) == finding_views(findings@)
                &&& parts.stale_entries@.len() == 0
            },
        },
{
    let mut baselined: Vec<Finding> = Vec::new();
    let mut unmatched: Vec<Finding> = Vec::new();
    let mut stale_entries: Vec<String> = Vec::new();
    let ghost all = finding_views(findings@);
    match baseline {
        None => {
            let mut i: usize = 0;
            while i < findings.len()
                invariant
                    i <= findings@.len(),
                    all == finding_views(findings@),
                    finding_views(unmatched@) =~= all.take(i as int),
                decreases findings@.len() - i,
            {
                let ghost before = finding_views(unmatched@);
                unmatched.push(findings[i].clone());
                assert(finding_views(unmatched@) =~= before.push(all[i as int]));
                i = i + 1;
            }
            assert(all.take(all.len() as int) =~= all);
        },
        Some(file) => {
            let known: Vec<Option<String>> = identities(findings);
            let ghost entries = file.violations.listed();
            let mut i: usize = 0;
            assert(finding_views(baselined@) =~= baselined_findings(all.take(0), entries));
            assert(finding_views(unmatched@) =~= unmatched_findings(all.take(0), entries));
            while i < findings.len()
                invariant
                    i <= findings@.len(),
                    all == finding_views(findings@),
                    entries == file.violations.listed(),
                    known@.len() == findings@.len(),
                    forall|j: int|
                        0 <= j < known@.len() ==> opt_view(#[trigger] known@[j]) == identity(
                            findings@[j].message@,
                        ),
                    finding_views(baselined@) == baselined_findings(all.take(i as int), entries),
                    finding_views(unmatched@) == unmatched_findings(all.take(i as int), entries),
                decreases findings@.len() - i,
            {
                let ghost old_baselined = finding_views(baselined@);
                let ghost old_unmatched = finding_views(unmatched@);
                proof {
                    assert(all.take(i + 1).drop_last() =~= all.take(i as int));
                    assert(all.take(i + 1).last() == findings@[i as int]@);
                    assert(opt_view(known@[i as int]) == identity(findings@[i as int].message@));
                }
                let found: bool = match &known[i] {
                    Some(own) => file.violations.contains(own),
                    None => false,
                };
                if found {
                    baselined.push(
                        Finding { severity: Severity::Warn, message: findings[i].message.clone() },
                    );
                    assert(finding_views(baselined@) =~= old_baselined.push(
                        FindingView {
                            severity: Severity::Warn,
                            message: findings@[i as int].message@,
                        },
                    ));
                } else {
                    unmatched.push(findings[i].clone());
                    assert(finding_views(unmatched@) =~= old_unmatched.push(
                        findings@[i as int]@,
                    ));
                }
                i = i + 1;
            }
            assert(all.take(all.len() as int) =~= all);
            let listed: Vec<String> = file.violations.to_list();
            let mut j: usize = 0;
            assert(views(stale_entries@) =~= stale(entries.take(0), all));
            while j < listed.len()
                invariant
                    j <= listed@.len(),
                    all == finding_views(findings@),
                    entries == views(listed@),
                    known@.len() == findings@.len(),
                    forall|k: int|
                        0 <= k < known@.len() ==> opt_view(#[trigger] known@[k]) == identity(
                            findings@[k].message@,
                        ),
                    views(stale_entries@) == stale(entries.take(j as int), all),
                decreases listed@.len() - j,
            {
                let ghost before = views(stale_entries@);
                proof {
                    assert(entries.take(j + 1).drop_last() =~= entries.take(j as int));
                    assert(entries.take(j + 1).last() == listed@[j as int]@);
                }
                let current: bool = among(&listed[j], &known);
                proof {
                    let entry = listed@[j as int]@;
                    if current {
                        let k = choose|k: int|
                            0 <= k < known@.len() && opt_view(#[trigger] known@[k]) == Some(entry);
                        assert(all[k].message == findings@[k].message@);
                        assert(is_current(entry, all));
                    } else if is_current(entry, all) {
                        let k = choose|k: int|
                            0 <= k < all.len() && identity(#[trigger] all[k].message) == Some(
                                entry,
                            );
                        assert(opt_view(known@[k]) == Some(entry));
                    }
                }
                if !current {
                    stale_entries.push(listed[j].clone());
                    assert(views(stale_entries@) =~= before.push(listed@[j as int]@));
                }
                j = j + 1;
            }
            assert(entries.take(entries.len() as int) =~= entries);
        },
    }
    Partitioned { baselined, unmatched, stale_entries }
}

/// A baseline that records `findings`: the identity of each that has one,
/// and nothing else.
pub open spec fn records(baseline: BaselineFile, findings: Seq<FindingView>) -> bool {
    &&& baseline.version == BASELINE_VERSION
    &&& is_ascending(baseline.violations.listed())
    &&& forall|entry: Seq<char>|
        baseline.violations.listed().contains(entry) <==> is_current(entry, findings)
}

/// The models of a list of borrowed findings.
pub open spec fn borrowed_views(list: Seq<&Finding>) -> Seq<FindingView> {
    list.map_values(|f: &Finding| f@)
}

impl BaselineFile {
    /// Builds a fresh baseline, dated `date`, capturing every classifiable
    /// finding in `findings`. Findings whose message cannot be classified are
    /// returned and are deliberately **not** recorded (fail-closed: they will
    /// keep failing the run until understood).
    pub fn regenerate_on<'a>(findings: &'a [Finding], date: String) -> (made: (
        BaselineFile,
        Vec<&'a Finding>,
    ))
        ensures
            records(made.0, finding_views(findings@)),
            opt_view(made.0.updated) == Some(date@),
            borrowed_views(made.1@) == unclassified_findings(finding_views(findings@)),
    {
        let mut violations: ViolationSet = ViolationSet::new();
        let mut unclassified: Vec<&'a Finding> = Vec::new();
        let ghost all = finding_views(findings@);
        let mut i: usize = 0;
        assert(borrowed_views(unclassified@) =~= unclassified_findings(all.take(0)));
        while i < findings.len()
            invariant
                i <= findings@.len(),
                all == finding_views(findings@),
                is_ascending(violations.listed()),
                forall|entry: Seq<char>|
                    violations.listed().contains(entry) <==> is_current(entry, all.take(i as int)),
                borrowed_views(unclassified@) == unclassified_findings(all.take(i as int)),
            decreases findings@.len() - i,
        {
            let ghost before = borrowed_views(unclassified@);
            let ghost shorter = all.take(i as int);
            let ghost longer = all.take(i + 1);
            proof {
                assert(longer.drop_last() =~= shorter);
                assert(longer.last() == findings@[i as int]@);
            }
            match finding_identity(&findings[i].message) {
                Some(own) => {
                    let ghost text = own@;
                    violations.insert(own);
                    proof {
                        assert forall|entry: Seq<char>| violations.listed().contains(entry)
                            <==> is_current(entry, longer) by {
                            lemma_current_grows(entry, shorter, longer);
                        }
                    }
                },
                None => {
                    unclassified.push(&findings[i]);
                    proof {
                        assert(borrowed_views(unclassified@) =~= before.push(
                            findings@[i as int]@,
                        ));
                        assert forall|entry: Seq<char>| violations.listed().contains(entry)
                            <==> is_current(entry, longer) by {
                            lemma_current_grows(entry, shorter, longer);
                        }
                    }
                },
            }
            i = i + 1;
        }
        assert(all.take(all.len() as int) =~= all);
        (BaselineFile { version: BASELINE_VERSION, updated: Some(date), violations }, unclassified)
    }

    /// [`BaselineFile::regenerate_on`] today.
    pub fn regenerate<'a>(findings: &'a [Finding]) -> (made: (BaselineFile, Vec<&'a Finding>))
        ensures
            records(made.0, finding_views(findings@)),
            made.0.updated is Some,
            exists|seconds: i64| is_date_of(made.0.updated->0@, seconds as int),
            borrowed_views(made.1@) == unclassified_findings(finding_views(findings@)),
    {
        BaselineFile::regenerate_on(findings, iso_date_today())
    }
}

/// One more finding adds its own identity and no other.
proof fn lemma_current_grows(entry: Seq<char>, shorter: Seq<FindingView>, longer: Seq<FindingView>)
    requires
        longer.len() > 0,
        longer.drop_last() == shorter,
    ensures
        is_current(entry, longer) <==> is_current(entry, shorter) || identity(longer.last().message)
            == Some(entry),
{
    if is_current(entry, longer) {
        let k = choose|k: int|
            0 <= k < longer.len() && identity(#[trigger] longer[k].message) == Some(entry);
        if k < shorter.len() {
            assert(shorter[k].message == longer[k].message);
        }
    }
    if is_current(entry, shorter) {
        let k = choose|k: int|
            0 <= k < shorter.len() && identity(#[trigger] shorter[k].message) == Some(entry);
        assert(longer[k].message == shorter[k].message);
    }
    if identity(longer.last().message) == Some(entry) {
        assert(longer[longer.len() - 1].message == longer.last().message);
    }
}

// ---------------------------------------------------------------------------
// Reading and writing
// ---------------------------------------------------------------------------

/// Why a baseline file cannot be used.
#[derive(Debug, PartialEq, Eq)]
pub enum BaselineError {
    /// The file is not a baseline document; the parser's own words.
    Malformed(String),
    /// The document has a schema version that this build does not understand.
    WrongVersion(u32),
}

/// The baseline that a document gives, if it can be used.
pub open spec fn accepted(document: Option<Result<BaselineFile, String>>) -> Result<
    Option<BaselineFile>,
    BaselineError,
> {
    match document {
        None => Ok(None),
        Some(Err(reason)) => Err(BaselineError::Malformed(reason)),
        Some(Ok(file)) => if file.version == BASELINE_VERSION {
            Ok(Some(file))
        } else {
            Err(BaselineError::WrongVersion(file.version))
        },
    }
}

/// `written` is what is written for `baseline`: with the version that this
/// build understands, and the date and entries of the baseline.
pub open spec fn is_document_of(written: BaselineFile, baseline: BaselineFile) -> bool {
    &&& written.version == BASELINE_VERSION
    &&& opt_view(written.updated) == opt_view(baseline.updated)
    &&& written.violations.listed() == baseline.violations.listed()
}

/// What is said of a baseline file that cannot be used.
pub open spec fn error_text(error: BaselineError, path: Seq<char>) -> Seq<char> {
    match error {
        BaselineError::Malformed(reason) => path + " is not a valid doc_checker baseline: "@
            + reason@,
        BaselineError::WrongVersion(version) => path + " has baseline version "@ + decimal(
            version as nat,
        ) + " but this build understands version "@ + decimal(BASELINE_VERSION as nat),
    }
}

impl BaselineError {
    /// What is said of the baseline file at `path`.
    pub fn message(&self, path: &str) -> (text: String)
        ensures
            text@ == error_text(*self, path@),
    {
        let mut text: String = path.to_owned();
        match self {
            BaselineError::Malformed(reason) => {
                text.append(" is not a valid doc_checker baseline: ");
                text.append(reason);
            },
            BaselineError::WrongVersion(version) => {
                text.append(" has baseline version ");
                text.append(&to_decimal(*version as u64));
                text.append(" but this build understands version ");
                text.append(&to_decimal(BASELINE_VERSION as u64));
            },
        }
        text
    }
}

/// The version of a document that does not say.
pub fn default_version() -> (version: u32)
    ensures
        version == BASELINE_VERSION,
{
    BASELINE_VERSION
}

/// Default baseline location: next to the crate manifest
/// (`tools/doc_checker/baseline.json`).
pub fn default_baseline_path(manifest_dir: &str) -> (path: String)
    ensures
        path@ == joined_path(manifest_dir@, "baseline.json"@),
{
    join_path(manifest_dir, "baseline.json")
}

impl BaselineFile {
    /// Decides on the document found at a baseline path: `None` where there is
    /// no file, and otherwise what parsing it gave. Returns `Ok(None)` when
    /// the file does not exist (no baseline in effect), and an error for
    /// malformed or schema-incompatible documents.
    pub fn load(document: Option<Result<BaselineFile, String>>) -> (loaded: Result<
        Option<BaselineFile>,
        BaselineError,
    >)
        ensures
            loaded == accepted(document),
    {
        match document {
            None => Ok(None),
            Some(Err(reason)) => Err(BaselineError::Malformed(reason)),
            Some(Ok(file)) => {
                if file.version != BASELINE_VERSION {
                    return Err(BaselineError::WrongVersion(file.version));
                }
                Ok(Some(file))
            },
        }
    }

    /// The document that is written for this baseline: the same date and
    /// entries, and always [`BASELINE_VERSION`].
    pub fn document(&self) -> (written: BaselineFile)
        ensures
            is_document_of(written, *self),
    {
        let mut written: BaselineFile = self.clone();
        written.version = BASELINE_VERSION;
        written
    }

    /// The text of a baseline file: the JSON document and a final line feed.
    pub fn save(json: String) -> (text: String)
        ensures
            text@ == json@ + "\n"@,
    {
        let mut text: String = json;
        text.append("\n");
        text
    }
}

impl Clone for BaselineFile {
    fn clone(&self) -> (copy: Self)
        ensures
            copy.version == self.version,
            opt_view(copy.updated) == opt_view(self.updated),
            copy.violations.listed() == self.violations.listed(),
    {
        BaselineFile {
            version: self.version,
            updated: match &self.updated {
                Some(date) => Some(date.clone()),
                None => None,
            },
            violations: self.violations.clone(),
        }
    }
}

impl Default for BaselineFile {
    fn default() -> (file: Self)
        ensures
            file.version == 0,
            file.updated is None,
            file.violations.listed() == Seq::<Seq<char>>::empty(),
    {
        BaselineFile { version: 0, updated: None, violations: ViolationSet::new() }
    }
}

impl Default for Partitioned {
    fn default() -> (parts: Self)
        ensures
            parts.baselined@.len() == 0,
            parts.unmatched@.len() == 0,
            parts.stale_entries@.len() == 0,
    {
        Partitioned {
            baselined: Vec::new(),
            unmatched: Vec::new(),
            stale_entries: Vec::new(),
        }
    }
}

// ---------------------------------------------------------------------------
// Laws
// ---------------------------------------------------------------------------

/// A baselined finding only ever warns, its message is that of a finding, and
/// its identity is an entry of the baseline.
pub proof fn law_baselined_findings_warn(
    findings: Seq<FindingView>,
    entries: Seq<Seq<char>>,
    i: int,
)
    requires
        0 <= i < baselined_findings(findings, entries).len(),
    ensures
        baselined_findings(findings, entries)[i].severity == Severity::Warn,
        is_baselined(baselined_findings(findings, entries)[i].message, entries),
        exists|k: int|
            0 <= k < findings.len() && #[trigger] findings[k].message == baselined_findings(
                findings,
                entries,
            )[i].message,
    decreases findings.len(),
{
    let shorter = findings.drop_last();
    if i < baselined_findings(shorter, entries).len() {
        law_baselined_findings_warn(shorter, entries, i);
        let k = choose|k: int|
            0 <= k < shorter.len() && #[trigger] shorter[k].message == baselined_findings(
                shorter,
                entries,
            )[i].message;
        assert(findings[k].message == shorter[k].message);
    } else {
        assert(findings[findings.len() - 1].message == findings.last().message);
    }
}

/// A finding without a baseline entry is unmatched and keeps its severity: a
/// new violation cannot enter the baseline silently.
pub proof fn law_new_violations_stay_unmatched(
    findings: Seq<FindingView>,
    entries: Seq<Seq<char>>,
    k: int,
)
    requires
        0 <= k < findings.len(),
        !is_baselined(findings[k].message, entries),
    ensures
        unmatched_findings(findings, entries).contains(findings[k]),
    decreases findings.len(),
{
    let shorter = findings.drop_last();
    let before = unmatched_findings(shorter, entries);
    let after = unmatched_findings(findings, entries);
    if k < findings.len() - 1 {
        law_new_violations_stay_unmatched(shorter, entries, k);
        let i = choose|i: int| 0 <= i < before.len() && before[i] == shorter[k];
        assert(after[i] == findings[k]);
    } else {
        assert(after[before.len() as int] == findings[k]);
    }
}

/// Fail closed: a finding whose message has no identity matches no baseline,
/// whatever its entries.
pub proof fn law_unclassified_findings_stay_unmatched(
    findings: Seq<FindingView>,
    entries: Seq<Seq<char>>,
    k: int,
)
    requires
        0 <= k < findings.len(),
        identity(findings[k].message) is None,
    ensures
        unmatched_findings(findings, entries).contains(findings[k]),
{
    law_new_violations_stay_unmatched(findings, entries, k);
}

/// An unmatched finding is one of the findings, and its identity is no entry
/// of the baseline.
pub proof fn law_unmatched_findings_are_new(
    findings: Seq<FindingView>,
    entries: Seq<Seq<char>>,
    i: int,
)
    requires
        0 <= i < unmatched_findings(findings, entries).len(),
    ensures
        findings.contains(unmatched_findings(findings, entries)[i]),
        !is_baselined(unmatched_findings(findings, entries)[i].message, entries),
    decreases findings.len(),
{
    let shorter = findings.drop_last();
    if i < unmatched_findings(shorter, entries).len() {
        law_unmatched_findings_are_new(shorter, entries, i);
        let k = choose|k: int|
            0 <= k < shorter.len() && shorter[k] == unmatched_findings(shorter, entries)[i];
        assert(findings[k] == unmatched_findings(findings, entries)[i]);
    } else {
        assert(findings[findings.len() - 1] == unmatched_findings(findings, entries)[i]);
    }
}

/// A finding that only moved to another line stays baselined, or stays
/// without an entry.
pub proof fn law_moved_findings_keep_their_entry(
    file: Seq<char>,
    line: nat,
    other: nat,
    name: Seq<char>,
    member: Seq<char>,
    sections: Seq<char>,
    entries: Seq<Seq<char>>,
)
    requires
        is_name(name),
        is_name(member),
        forall|i: int| 0 <= i < sections.len() ==> sections[i] != ':',
    ensures
        is_baselined(fn_missing_message(file, line, name, sections), entries) == is_baselined(
            fn_missing_message(file, other, name, sections),
            entries,
        ),
        is_baselined(fn_undocumented_message(file, line, name), entries) == is_baselined(
            fn_undocumented_message(file, other, name),
            entries,
        ),
        is_baselined(event_field_message(file, line, name, member), entries) == is_baselined(
            event_field_message(file, other, name, member),
            entries,
        ),
        is_baselined(event_variant_message(file, line, name, member), entries) == is_baselined(
            event_variant_message(file, other, name, member),
            entries,
        ),
        is_baselined(error_variant_message(file, line, name, member), entries) == is_baselined(
            error_variant_message(file, other, name, member),
            entries,
        ),
        is_baselined(stale_ref_message(file, line, name), entries) == is_baselined(
            stale_ref_message(file, other, name),
            entries,
        ),
{
    law_identity_ignores_line_numbers(file, line, other, name, member, sections);
}

/// Splitting loses no message and invents none.
pub proof fn law_partition_keeps_every_message(
    findings: Seq<FindingView>,
    entries: Seq<Seq<char>>,
)
    ensures
        messages(baselined_findings(findings, entries)).to_multiset().add(
            messages(unmatched_findings(findings, entries)).to_multiset(),
        ) =~= messages(findings).to_multiset(),
    decreases findings.len(),
{
    broadcast use vstd::seq_lib::group_to_multiset_ensures;

    let left = baselined_findings(findings, entries);
    let right = unmatched_findings(findings, entries);
    if findings.len() == 0 {
        assert(messages(left) =~= Seq::empty());
        assert(messages(right) =~= Seq::empty());
        assert(messages(findings) =~= Seq::empty());
    } else {
        let shorter = findings.drop_last();
        let message = findings.last().message;
        law_partition_keeps_every_message(shorter, entries);
        assert(messages(findings) =~= messages(shorter).push(message));
        if is_baselined(message, entries) {
            assert(messages(left) =~= messages(baselined_findings(shorter, entries)).push(message));
        } else {
            assert(messages(right) =~= messages(unmatched_findings(shorter, entries)).push(
                message,
            ));
        }
    }
}

/// The stale entries are exactly the entries of the baseline that are the
/// identity of no finding.
pub proof fn law_stale_entries_match_nothing(
    entries: Seq<Seq<char>>,
    findings: Seq<FindingView>,
    entry: Seq<char>,
)
    ensures
        stale(entries, findings).contains(entry) <==> entries.contains(entry) && !is_current(
            entry,
            findings,
        ),
    decreases entries.len(),
{
    if entries.len() > 0 {
        let shorter = entries.drop_last();
        let before = stale(shorter, findings);
        let after = stale(entries, findings);
        law_stale_entries_match_nothing(shorter, findings, entry);
        if after.contains(entry) {
            let i = choose|i: int| 0 <= i < after.len() && after[i] == entry;
            if i < before.len() {
                assert(before[i] == entry);
                let k = choose|k: int| 0 <= k < shorter.len() && shorter[k] == entry;
                assert(entries[k] == entry);
            } else {
                assert(entries[entries.len() - 1] == entry);
            }
        }
        if entries.contains(entry) && !is_current(entry, findings) {
            let k = choose|k: int| 0 <= k < entries.len() && entries[k] == entry;
            if k < shorter.len() {
                assert(shorter[k] == entry);
                let i = choose|i: int| 0 <= i < before.len() && before[i] == entry;
                assert(after[i] == entry);
            } else {
                assert(after[before.len() as int] == entry);
            }
        }
    }
}

/// A freshly regenerated baseline covers the findings it was made from: each
/// that has an identity warns, only those without one are unmatched, and no
/// entry is stale.
pub proof fn law_regenerated_baseline_covers_its_findings(
    baseline: BaselineFile,
    findings: Seq<FindingView>,
)
    requires
        records(baseline, findings),
    ensures
        unmatched_findings(findings, baseline.violations.listed()) == unclassified_findings(
            findings,
        ),
        stale(baseline.violations.listed(), findings) == Seq::<Seq<char>>::empty(),
{
    let entries = baseline.violations.listed();
    assert forall|k: int| 0 <= k < findings.len() implies is_baselined(
        #[trigger] findings[k].message,
        entries,
    ) == (identity(findings[k].message) is Some) by {
        if identity(findings[k].message) is Some {
            assert(is_current(identity(findings[k].message)->0, findings));
        }
    }
    lemma_unmatched_is_unclassified(findings, entries);
    let left = stale(entries, findings);
    if left.len() > 0 {
        law_stale_entries_match_nothing(entries, findings, left[0]);
        assert(left.contains(left[0]));
    }
    assert(left =~= Seq::empty());
}

/// What is written for a baseline, whatever its version, is accepted when it
/// is read back.
pub proof fn law_written_baseline_is_accepted(written: BaselineFile, baseline: BaselineFile)
    requires
        is_document_of(written, baseline),
    ensures
        accepted(Some(Ok(written))) == Ok::<Option<BaselineFile>, BaselineError>(Some(written)),
{
}

/// A regenerated baseline that is read back as it was written is accepted.
pub proof fn law_regenerated_baseline_is_accepted(
    baseline: BaselineFile,
    findings: Seq<FindingView>,
)
    requires
        records(baseline, findings),
    ensures
        accepted(Some(Ok(baseline))) == Ok::<Option<BaselineFile>, BaselineError>(Some(baseline)),
{
}

/// A baseline is only ever put out of effect by its absence: a document that
/// is there and does not have the version that this build understands is an
/// error.
pub proof fn law_broken_baseline_is_an_error(document: Option<Result<BaselineFile, String>>)
    ensures
        accepted(document) == Ok::<Option<BaselineFile>, BaselineError>(None) <==> document is None,
        accepted(document) is Err <==> document is Some && (document->0 is Err
            || document->0->Ok_0.version != BASELINE_VERSION),
{
}

proof fn lemma_unmatched_is_unclassified(findings: Seq<FindingView>, entries: Seq<Seq<char>>)
    requires
        forall|k: int|
            0 <= k < findings.len() ==> is_baselined(#[trigger] findings[k].message, entries) == (
            identity(findings[k].message) is Some),
    ensures
        unmatched_findings(findings, entries) == unclassified_findings(findings),
    decreases findings.len(),
{
    if findings.len() > 0 {
        let shorter = findings.drop_last();
        assert forall|k: int| 0 <= k < shorter.len() implies is_baselined(
            #[trigger] shorter[k].message,
            entries,
        ) == (identity(shorter[k].message) is Some) by {
            assert(findings[k].message == shorter[k].message);
        }
        lemma_unmatched_is_unclassified(shorter, entries);
        assert(findings[findings.len() - 1].message == findings.last().message);
    }
}

} // verus!
