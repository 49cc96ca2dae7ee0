//! Findings, their configuration and the wording of their messages.

use crate::text::{decimal, to_decimal};
use vstd::prelude::*;
use vstd::string::*;

verus! {

/// Whether a reported finding should fail the run or only warn.
///
/// New documentation rules (entirely-undocumented public functions,
/// undocumented error-enum variants, and orphaned `docs/*.md` files) default
/// to [`Severity::Warn`] so they can be rolled out incrementally without
/// immediately breaking CI. Passing `--strict` promotes every finding to
/// [`Severity::Fail`].
#[derive(Clone, Copy, Debug, PartialEq, Eq, Structural)]
pub enum Severity {
    Warn,
    Fail,
}

/// Runtime configuration for the documentation checker.
///
/// Each `check_*` flag turns on an additional category of checks, and
/// `*_severity` controls whether findings in the newer categories warn or fail.
#[derive(Clone, Copy, Debug)]
pub struct CheckConfig {
    /// Check documented fields/variants on event-like `#[contracttype]` items.
    pub check_events: bool,
    /// Flag public `#[contractimpl]` functions that have no doc comment at all.
    pub check_undocumented_fns: bool,
    /// Flag undocumented variants on `#[contracterror]` enums.
    pub check_error_enums: bool,
    /// Flag `docs/*.md` files unreachable from README.md / docs index files.
    pub check_orphaned_docs: bool,
    /// Flag backtick-quoted function references in docs that do not
    /// correspond to any public function in the contract tree.
    pub check_stale_refs: bool,
    /// Severity applied to the newer checks (undocumented fns / error
    /// variants / orphaned docs / stale refs).
    pub new_check_severity: Severity,
}

/// The configuration without any option.
pub open spec fn default_config() -> CheckConfig {
    CheckConfig {
        check_events: false,
        check_undocumented_fns: true,
        check_error_enums: true,
        check_orphaned_docs: true,
        check_stale_refs: true,
        new_check_severity: Severity::Warn,
    }
}

impl Default for CheckConfig {
    fn default() -> (config: Self)
        ensures
            config == default_config(),
    {
        CheckConfig {
            check_events: false,
            check_undocumented_fns: true,
            check_error_enums: true,
            check_orphaned_docs: true,
            check_stale_refs: true,
            new_check_severity: Severity::Warn,
        }
    }
}

/// A single documentation finding with its severity.
#[derive(Debug)]
pub struct Finding {
    pub severity: Severity,
    pub message: String,
}

/// The model of a [`Finding`].
pub struct FindingView {
    pub severity: Severity,
    pub message: Seq<char>,
}

impl View for Finding {
    type V = FindingView;

    open spec fn view(&self) -> FindingView {
        FindingView { severity: self.severity, message: self.message@ }
    }
}

/// The models of a list of findings.
pub open spec fn finding_views(list: Seq<Finding>) -> Seq<FindingView> {
    list.map_values(|f: Finding| f@)
}

impl Clone for Finding {
    fn clone(&self) -> (copy: Self)
        ensures
            copy@ == self@,
    {
        Finding { severity: self.severity, message: self.message.clone() }
    }
}

// ---------------------------------------------------------------------------
// Messages
// ---------------------------------------------------------------------------

/// A function whose doc comment lacks sections. `number` is its line.
pub open spec fn fn_missing_text(
    file: Seq<char>,
    number: Seq<char>,
    name: Seq<char>,
    sections: Seq<char>,
) -> Seq<char> {
    file + ":"@ + number + ": fn "@ + name + " missing "@ + sections
}

/// A function whose doc comment lacks sections.
pub open spec fn fn_missing_message(
    file: Seq<char>,
    line: nat,
    name: Seq<char>,
    sections: Seq<char>,
) -> Seq<char> {
    fn_missing_text(file, decimal(line), name, sections)
}

/// A function without any doc comment. `number` is its line.
pub open spec fn fn_undocumented_text(
    file: Seq<char>,
    number: Seq<char>,
    name: Seq<char>,
) -> Seq<char> {
    file + ":"@ + number + ": fn "@ + name + " has no doc comment at all"@
}

/// A function without any doc comment.
pub open spec fn fn_undocumented_message(
    file: Seq<char>,
    line: nat,
    name: Seq<char>,
) -> Seq<char> {
    fn_undocumented_text(file, decimal(line), name)
}

/// An event struct with an undocumented named field. `number` is its line.
pub open spec fn event_field_text(
    file: Seq<char>,
    number: Seq<char>,
    name: Seq<char>,
    field: Seq<char>,
) -> Seq<char> {
    file + ":"@ + number + ": struct "@ + name + " missing docs for field "@ + field
}

/// An event struct with an undocumented named field.
pub open spec fn event_field_message(
    file: Seq<char>,
    line: nat,
    name: Seq<char>,
    field: Seq<char>,
) -> Seq<char> {
    event_field_text(file, decimal(line), name, field)
}

/// An event struct with an undocumented unnamed field.
pub open spec fn event_unnamed_field_message(
    file: Seq<char>,
    name: Seq<char>,
    index: nat,
) -> Seq<char> {
    file + ": struct "@ + name + " missing docs for unnamed field "@ + decimal(index)
}

/// An event enum with an undocumented variant. `number` is its line.
pub open spec fn event_variant_text(
    file: Seq<char>,
    number: Seq<char>,
    name: Seq<char>,
    variant: Seq<char>,
) -> Seq<char> {
    file + ":"@ + number + ": enum "@ + name + " missing docs for variant "@ + variant
}

/// An event enum with an undocumented variant.
pub open spec fn event_variant_message(
    file: Seq<char>,
    line: nat,
    name: Seq<char>,
    variant: Seq<char>,
) -> Seq<char> {
    event_variant_text(file, decimal(line), name, variant)
}

/// An error enum with an undocumented variant. `number` is its line.
pub open spec fn error_variant_text(
    file: Seq<char>,
    number: Seq<char>,
    name: Seq<char>,
    variant: Seq<char>,
) -> Seq<char> {
    file + ":"@ + number + ": error enum "@ + name + " variant "@ + variant
        + " has no doc comment"@
}

/// An error enum with an undocumented variant.
pub open spec fn error_variant_message(
    file: Seq<char>,
    line: nat,
    name: Seq<char>,
    variant: Seq<char>,
) -> Seq<char> {
    error_variant_text(file, decimal(line), name, variant)
}

/// A document that no index leads to.
pub open spec fn orphaned_doc_message(file: Seq<char>) -> Seq<char> {
    file + ": orphaned doc - not reachable from README.md or any docs index file"@
}

/// A reference to a function that does not exist. `number` is its line.
pub open spec fn stale_ref_text(
    file: Seq<char>,
    number: Seq<char>,
    name: Seq<char>,
) -> Seq<char> {
    file + ":"@ + number + ": stale doc reference to `"@ + name
        + "` – no matching pub fn found in contracts"@
}

/// A reference to a function that does not exist.
pub open spec fn stale_ref_message(
    file: Seq<char>,
    line: nat,
    name: Seq<char>,
) -> Seq<char> {
    stale_ref_text(file, decimal(line), name)
}

/// `{file}:{line}` and then the text `rest`.
fn located(file: &str, line: usize, rest: &str) -> (message: String)
    ensures
        message@ == file@ + ":"@ + decimal(line as nat) + rest@,
{
    let mut message: String = file.to_owned();
    message.append(":");
    message.append(&to_decimal(line as u64));
    message.append(rest);
    message
}

/// The message: a function whose doc comment lacks sections.
pub fn fn_missing(file: &str, line: usize, name: &str, sections: &str) -> (message: String)
    ensures
        message@ == fn_missing_message(file@, line as nat, name@, sections@),
{
    let mut message: String = located(file, line, ": fn ");
    message.append(name);
    message.append(" missing ");
    message.append(sections);
    message
}

/// The message: a function without any doc comment.
pub fn fn_undocumented(file: &str, line: usize, name: &str) -> (message: String)
    ensures
        message@ == fn_undocumented_message(file@, line as nat, name@),
{
    let mut message: String = located(file, line, ": fn ");
    message.append(name);
    message.append(" has no doc comment at all");
    message
}

/// The message: an event struct with an undocumented named field.
pub fn event_field(file: &str, line: usize, name: &str, field: &str) -> (message: String)
    ensures
        message@ == event_field_message(file@, line as nat, name@, field@),
{
    let mut message: String = located(file, line, ": struct ");
    message.append(name);
    message.append(" missing docs for field ");
    message.append(field);
    message
}

/// The message: an event struct with an undocumented unnamed field.
pub fn event_unnamed_field(file: &str, name: &str, index: usize) -> (message: String)
    ensures
        message@ == event_unnamed_field_message(file@, name@, index as nat),
{
    let mut message: String = file.to_owned();
    message.append(": struct ");
    message.append(name);
    message.append(" missing docs for unnamed field ");
    message.append(&to_decimal(index as u64));
    message
}

/// The message: an event enum with an undocumented variant.
pub fn event_variant(file: &str, line: usize, name: &str, variant: &str) -> (message: String)
    ensures
        message@ == event_variant_message(file@, line as nat, name@, variant@),
{
    let mut message: String = located(file, line, ": enum ");
    message.append(name);
    message.append(" missing docs for variant ");
    message.append(variant);
    message
}

/// The message: an error enum with an undocumented variant.
pub fn error_variant(file: &str, line: usize, name: &str, variant: &str) -> (message: String)
    ensures
        message@ == error_variant_message(file@, line as nat, name@, variant@),
{
    let mut message: String = located(file, line, ": error enum ");
    message.append(name);
    message.append(" variant ");
    message.append(variant);
    message.append(" has no doc comment");
    message
}

/// The message: a document that no index leads to.
pub fn orphaned_doc(file: &str) -> (message: String)
    ensures
        message@ == orphaned_doc_message(file@),
{
    let mut message: String = file.to_owned();
    message.append(": orphaned doc - not reachable from README.md or any docs index file");
    message
}

/// The message: a reference to a function that does not exist.
pub fn stale_ref(file: &str, line: usize, name: &str) -> (message: String)
    ensures
        message@ == stale_ref_message(file@, line as nat, name@),
{
    let mut message: String = located(file, line, ": stale doc reference to `");
    message.append(name);
    message.append("` – no matching pub fn found in contracts");
    message
}

} // verus!
