//! Documentation rules on a contract source file.

use crate::findings::{
    default_config, error_variant, error_variant_message, event_field, event_field_message,
    event_unnamed_field, event_unnamed_field_message, event_variant, event_variant_message,
    finding_views, fn_missing, fn_missing_message, fn_undocumented, fn_undocumented_message,
    CheckConfig, Finding, FindingView, Severity,
};
use crate::flags::{
    has_severities, is_complete, law_flags_remove_their_messages,
    law_only_missing_doc_comments_warn, left,
};
use crate::patterns::opt_views;
use crate::source::{
    attr_views, impl_member_view, impl_member_views, item_views, member_views, parse_source,
    parsed_items, unnamed_views, Attr, AttrView, FieldList, FieldListView, FnItem, FnView, ItemView,
    Member, MemberView, Paths, SourceItem,
};
use crate::text::{contains_text, has_text, join_text, joined, opt_view, same_text, to_chars, views};
use vstd::prelude::*;
use vstd::string::*;

verus! {

// ---------------------------------------------------------------------------
// The rules
// ---------------------------------------------------------------------------

/// One of the attributes is the identifier `name`.
pub open spec fn has_path(attrs: Paths, name: Seq<char>) -> bool {
    attrs.contains(Some(name))
}

/// There is a doc comment: a `doc` attribute with a text.
pub open spec fn is_documented(attrs: Seq<AttrView>) -> bool {
    exists|i: int|
        0 <= i < attrs.len() && #[trigger] attrs[i].name == Some("doc"@) && attrs[i].text is Some
}

/// The doc comment of a function: the text of each `doc` attribute, followed
/// by a line feed.
pub open spec fn doc_text(attrs: Seq<AttrView>) -> Seq<char>
    decreases attrs.len(),
{
    if attrs.len() == 0 {
        Seq::empty()
    } else {
        let before = doc_text(attrs.drop_last());
        let attr = attrs.last();
        if attr.name == Some("doc"@) && attr.text is Some {
            before + attr.text->0 + "\n"@
        } else {
            before
        }
    }
}

/// `str::to_lowercase` of a text with characters outside ASCII.
pub uninterp spec fn unicode_lowercase(s: Seq<char>) -> Seq<char>;

/// Every character is an ASCII character.
pub open spec fn is_ascii_text(s: Seq<char>) -> bool {
    forall|i: int| 0 <= i < s.len() ==> #[trigger] s[i] <= '\u{7f}'
}

/// A text with the ASCII capital letters in lower case.
pub open spec fn ascii_lowercase(s: Seq<char>) -> Seq<char> {
    s.map_values(
        |c: char|
            if 'A' <= c <= 'Z' {
                (c as u32 + 32) as char
            } else {
                c
            },
    )
}

/// A text in lower case.
pub open spec fn lowercase(s: Seq<char>) -> Seq<char> {
    if is_ascii_text(s) {
        ascii_lowercase(s)
    } else {
        unicode_lowercase(s)
    }
}

/// The doc comment, in lower case, speaks of parameters.
pub open spec fn mentions_params(doc: Seq<char>) -> bool {
    contains_text(doc, "param"@) || contains_text(doc, "arguments"@)
}

/// The doc comment, in lower case, speaks of the returned value.
pub open spec fn mentions_return(doc: Seq<char>) -> bool {
    contains_text(doc, "return"@)
}

/// The doc comment, in lower case, speaks of access control.
pub open spec fn mentions_access(doc: Seq<char>) -> bool {
    contains_text(doc, "access"@) || contains_text(doc, "auth"@) || contains_text(doc, "require"@)
}

/// The sections that a doc comment, in lower case, lacks.
pub open spec fn sections_missing(
    doc: Seq<char>,
    takes_inputs: bool,
    returns_value: bool,
) -> Seq<Seq<char>> {
    let params = if takes_inputs && !mentions_params(doc) {
        seq!["params"@]
    } else {
        seq![]
    };
    let result = if returns_value && !mentions_return(doc) {
        seq!["return"@]
    } else {
        seq![]
    };
    let access = if !mentions_access(doc) {
        seq!["access control"@]
    } else {
        seq![]
    };
    params + result + access
}

/// What is reported of a function in a `#[contractimpl]` block.
pub open spec fn fn_findings(func: FnView, file: Seq<char>, config: CheckConfig) -> Seq<
    FindingView,
> {
    let doc = doc_text(func.attrs);
    let missing = sections_missing(lowercase(doc), func.inputs > 0, func.returns_value);
    if !func.public {
        seq![]
    } else if doc.len() == 0 {
        if config.check_undocumented_fns {
            seq![
                FindingView {
                    severity: config.new_check_severity,
                    message: fn_undocumented_message(file, func.line, func.name),
                },
            ]
        } else {
            seq![]
        }
    } else if missing.len() > 0 {
        seq![
            FindingView {
                severity: Severity::Fail,
                message: fn_missing_message(
                    file,
                    func.line,
                    func.name,
                    join_text(missing, ", "@),
                ),
            },
        ]
    } else {
        seq![]
    }
}

/// What is reported of the members of a `#[contractimpl]` block.
pub open spec fn impl_findings(
    members: Seq<Option<FnView>>,
    file: Seq<char>,
    config: CheckConfig,
) -> Seq<FindingView>
    decreases members.len(),
{
    if members.len() == 0 {
        seq![]
    } else {
        let before = impl_findings(members.drop_last(), file, config);
        match members.last() {
            Some(func) => before + fn_findings(func, file, config),
            None => before,
        }
    }
}

/// A name that marks an event.
pub open spec fn is_event_name(name: Seq<char>) -> bool {
    contains_text(name, "Event"@) || contains_text(name, "Payload"@)
}

/// What is reported of the named fields of an event struct.
pub open spec fn named_field_findings(
    fields: Seq<MemberView>,
    name: Seq<char>,
    file: Seq<char>,
) -> Seq<FindingView>
    decreases fields.len(),
{
    if fields.len() == 0 {
        seq![]
    } else {
        let before = named_field_findings(fields.drop_last(), name, file);
        let field = fields.last();
        if is_documented(field.attrs) {
            before
        } else {
            before.push(
                FindingView {
                    severity: Severity::Fail,
                    message: event_field_message(file, field.line, name, field.name),
                },
            )
        }
    }
}

/// What is reported of the unnamed fields of an event struct.
pub open spec fn unnamed_field_findings(
    fields: Seq<Seq<AttrView>>,
    name: Seq<char>,
    file: Seq<char>,
) -> Seq<FindingView>
    decreases fields.len(),
{
    if fields.len() == 0 {
        seq![]
    } else {
        let before = unnamed_field_findings(fields.drop_last(), name, file);
        if is_documented(fields.last()) {
            before
        } else {
            before.push(
                FindingView {
                    severity: Severity::Fail,
                    message: event_unnamed_field_message(file, name, (fields.len() - 1) as nat),
                },
            )
        }
    }
}

/// What is reported of the fields of an event struct.
pub open spec fn field_findings(
    fields: FieldListView,
    name: Seq<char>,
    file: Seq<char>,
) -> Seq<FindingView> {
    match fields {
        FieldListView::Named(list) => named_field_findings(list, name, file),
        FieldListView::Unnamed(list) => unnamed_field_findings(list, name, file),
        FieldListView::Unit => seq![],
    }
}

/// What is reported of the variants of an event enum.
pub open spec fn event_variant_findings(
    variants: Seq<MemberView>,
    name: Seq<char>,
    file: Seq<char>,
) -> Seq<FindingView>
    decreases variants.len(),
{
    if variants.len() == 0 {
        seq![]
    } else {
        let before = event_variant_findings(variants.drop_last(), name, file);
        let variant = variants.last();
        if is_documented(variant.attrs) {
            before
        } else {
            before.push(
                FindingView {
                    severity: Severity::Fail,
                    message: event_variant_message(file, variant.line, name, variant.name),
                },
            )
        }
    }
}

/// What is reported of the variants of an error enum.
pub open spec fn error_variant_findings(
    variants: Seq<MemberView>,
    name: Seq<char>,
    file: Seq<char>,
    severity: Severity,
) -> Seq<FindingView>
    decreases variants.len(),
{
    if variants.len() == 0 {
        seq![]
    } else {
        let before = error_variant_findings(variants.drop_last(), name, file, severity);
        let variant = variants.last();
        if is_documented(variant.attrs) {
            before
        } else {
            before.push(
                FindingView {
                    severity,
                    message: error_variant_message(file, variant.line, name, variant.name),
                },
            )
        }
    }
}

/// What is reported of a top-level item.
pub open spec fn item_findings(item: ItemView, file: Seq<char>, config: CheckConfig) -> Seq<
    FindingView,
> {
    match item {
        ItemView::Impl { attrs, members } => if has_path(attrs, "contractimpl"@) {
            impl_findings(members, file, config)
        } else {
            seq![]
        },
        ItemView::Struct { attrs, name, fields } => if config.check_events && has_path(
            attrs,
            "contracttype"@,
        ) && is_event_name(name) {
            field_findings(fields, name, file)
        } else {
            seq![]
        },
        ItemView::Enum { attrs, name, variants } => {
            let events = if config.check_events && has_path(attrs, "contracttype"@)
                && is_event_name(name) {
                event_variant_findings(variants, name, file)
            } else {
                seq![]
            };
            let errors = if config.check_error_enums && has_path(attrs, "contracterror"@) {
                error_variant_findings(variants, name, file, config.new_check_severity)
            } else {
                seq![]
            };
            events + errors
        },
        ItemView::Other => seq![],
    }
}

/// What is reported of the items of a file, in their order.
pub open spec fn items_findings(items: Seq<ItemView>, file: Seq<char>, config: CheckConfig) -> Seq<
    FindingView,
>
    decreases items.len(),
{
    if items.len() == 0 {
        seq![]
    } else {
        items_findings(items.drop_last(), file, config) + item_findings(items.last(), file, config)
    }
}

/// What is reported of a source text; nothing of one that is not valid Rust.
pub open spec fn source_findings(content: Seq<char>, file: Seq<char>, config: CheckConfig) -> Seq<
    FindingView,
> {
    match parsed_items(content) {
        Some(items) => items_findings(items, file, config),
        None => seq![],
    }
}

/// The messages of a list of findings.
pub open spec fn messages(list: Seq<FindingView>) -> Seq<Seq<char>> {
    list.map_values(|f: FindingView| f.message)
}

/// The configuration of [`check_contract_docs`].
pub open spec fn contract_config(check_events: bool) -> CheckConfig {
    CheckConfig { check_events, new_check_severity: Severity::Fail, ..default_config() }
}

// ---------------------------------------------------------------------------
// Checking
// ---------------------------------------------------------------------------

/// The standard library's Unicode lower case. In a text of ASCII characters
/// it changes the capital letters and nothing else; of any other text the
/// result is named by [`unicode_lowercase`].
pub assume_specification[ str::to_lowercase ](s: &str) -> (lower: String)
    ensures
        lower@ == (if is_ascii_text(s@) {
            ascii_lowercase(s@)
        } else {
            unicode_lowercase(s@)
        }),
;

/// Whether one of the attributes is the identifier `name`.
fn carries(attrs: &Vec<Option<String>>, name: &str) -> (found: bool)
    ensures
        found == has_path(opt_views(attrs@), name@),
{
    let mut i: usize = 0;
    while i < attrs.len()
        invariant
            i <= attrs@.len(),
            forall|j: int| 0 <= j < i ==> opt_views(attrs@)[j] != Some(name@),
        decreases attrs@.len() - i,
    {
        assert(opt_views(attrs@)[i as int] == opt_view(attrs@[i as int]));
        if let Some(path) = &attrs[i] {
            if same_text(path, name) {
                return true;
            }
        }
        i = i + 1;
    }
    false
}

/// Whether there is a doc comment among the attributes.
fn documented(attrs: &Vec<Attr>) -> (found: bool)
    ensures
        found == is_documented(attr_views(attrs@)),
{
    let ghost all = attr_views(attrs@);
    let mut i: usize = 0;
    while i < attrs.len()
        invariant
            i <= attrs@.len(),
            all == attr_views(attrs@),
            forall|j: int|
                0 <= j < i ==> !(#[trigger] all[j].name == Some("doc"@) && all[j].text is Some),
        decreases attrs@.len() - i,
    {
        assert(all[i as int] == attrs@[i as int]@);
        if let Some(name) = &attrs[i].name {
            if same_text(name, "doc") {
                if attrs[i].text.is_some() {
                    assert(all[i as int].name == Some("doc"@));
                    return true;
                }
            }
        }
        i = i + 1;
    }
    false
}

/// The doc comment of a function.
fn doc_comment(attrs: &Vec<Attr>) -> (doc: String)
    ensures
        doc@ == doc_text(attr_views(attrs@)),
{
    let mut doc: String = String::new();
    let mut i: usize = 0;
    let ghost all = attr_views(attrs@);
    while i < attrs.len()
        invariant
            i <= attrs@.len(),
            all == attr_views(attrs@),
            doc@ == doc_text(all.take(i as int)),
        decreases attrs@.len() - i,
    {
        proof {
            assert(all.take(i + 1).drop_last() =~= all.take(i as int));
            assert(all.take(i + 1).last() == attrs@[i as int]@);
        }
        if let Some(name) = &attrs[i].name {
            if same_text(name, "doc") {
                if let Some(text) = &attrs[i].text {
                    doc.append(text);
                    doc.append("\n");
                }
            }
        }
        i = i + 1;
    }
    assert(all.take(all.len() as int) =~= all);
    doc
}

/// Whether `text` contains `word`.
fn mentions(text: &Vec<char>, word: &str) -> (found: bool)
    ensures
        found == contains_text(text@, word@),
{
    has_text(text, &to_chars(word))
}

/// The sections that a doc comment lacks, given in lower case: its
/// parameters, its result, and who may call the function.
pub fn missing_sections(doc_lower: &str, takes_inputs: bool, returns_value: bool) -> (missing: Vec<
    String,
>)
    ensures
        views(missing@) == sections_missing(doc_lower@, takes_inputs, returns_value),
{
    let doc: Vec<char> = to_chars(doc_lower);
    let has_param: bool = mentions(&doc, "param") || mentions(&doc, "arguments") || !takes_inputs;
    let has_return: bool = mentions(&doc, "return") || !returns_value;
    let has_access: bool = mentions(&doc, "access") || mentions(&doc, "auth") || mentions(
        &doc,
        "require",
    );
    let mut missing: Vec<String> = Vec::new();
    if !has_param {
        missing.push("params".to_owned());
    }
    if !has_return {
        missing.push("return".to_owned());
    }
    if !has_access {
        missing.push("access control".to_owned());
    }
    assert(views(missing@) =~= sections_missing(doc_lower@, takes_inputs, returns_value));
    missing
}

/// Appends a finding.
fn add_finding(findings: &mut Vec<Finding>, severity: Severity, message: String)
    ensures
        finding_views(final(findings)@) == finding_views(old(findings)@).push(
            FindingView { severity, message: message@ },
        ),
{
    findings.push(Finding { severity, message });
    assert(finding_views(findings@) =~= finding_views(old(findings)@).push(
        FindingView { severity, message: message@ },
    ));
}

/// Checks one function of a `#[contractimpl]` block.
fn check_fn(func: &FnItem, file_name: &str, config: &CheckConfig, findings: &mut Vec<Finding>)
    ensures
        finding_views(final(findings)@) == finding_views(old(findings)@) + fn_findings(
            func@,
            file_name@,
            *config,
        ),
{
    let ghost before = finding_views(findings@);
    if func.public {
        let doc: String = doc_comment(&func.attrs);
        if doc.as_str().is_empty() {
            if config.check_undocumented_fns {
                add_finding(
                    findings,
                    config.new_check_severity,
                    fn_undocumented(file_name, func.line, &func.name),
                );
            }
        } else {
            let missing: Vec<String> = missing_sections(
                &doc.to_lowercase(),
                func.inputs > 0,
                func.returns_value,
            );
            if missing.len() > 0 {
                add_finding(
                    findings,
                    Severity::Fail,
                    fn_missing(file_name, func.line, &func.name, &joined(&missing, ", ")),
                );
            }
        }
    }
    assert(finding_views(findings@) =~= before + fn_findings(func@, file_name@, *config));
}

/// Checks the members of a `#[contractimpl]` block.
fn check_impl(
    members: &Vec<Option<FnItem>>,
    file_name: &str,
    config: &CheckConfig,
    findings: &mut Vec<Finding>,
)
    ensures
        finding_views(final(findings)@) == finding_views(old(findings)@) + impl_findings(
            impl_member_views(members@),
            file_name@,
            *config,
        ),
{
    let ghost before = finding_views(findings@);
    let ghost all = impl_member_views(members@);
    let mut i: usize = 0;
    assert(finding_views(findings@) =~= before + impl_findings(
        all.take(0),
        file_name@,
        *config,
    ));
    while i < members.len()
        invariant
            i <= members@.len(),
            all == impl_member_views(members@),
            finding_views(findings@) == before + impl_findings(
                all.take(i as int),
                file_name@,
                *config,
            ),
        decreases members@.len() - i,
    {
        proof {
            assert(all.take(i + 1).drop_last() =~= all.take(i as int));
            assert(all.take(i + 1).last() == impl_member_view(members@[i as int]));
        }
        if let Some(func) = &members[i] {
            check_fn(func, file_name, config, findings);
        }
        assert(finding_views(findings@) =~= before + impl_findings(
            all.take(i + 1),
            file_name@,
            *config,
        ));
        i = i + 1;
    }
    assert(all.take(all.len() as int) =~= all);
}

/// Whether a name marks an event.
fn event_named(name: &str) -> (found: bool)
    ensures
        found == is_event_name(name@),
{
    let chars: Vec<char> = to_chars(name);
    mentions(&chars, "Event") || mentions(&chars, "Payload")
}

/// Checks the named fields of an event struct.
fn check_named_fields(
    fields: &Vec<Member>,
    name: &str,
    file_name: &str,
    findings: &mut Vec<Finding>,
)
    ensures
        finding_views(final(findings)@) == finding_views(old(findings)@) + named_field_findings(
            member_views(fields@),
            name@,
            file_name@,
        ),
{
    let ghost before = finding_views(findings@);
    let ghost all = member_views(fields@);
    let mut i: usize = 0;
    assert(finding_views(findings@) =~= before + named_field_findings(
        all.take(0),
        name@,
        file_name@,
    ));
    while i < fields.len()
        invariant
            i <= fields@.len(),
            all == member_views(fields@),
            finding_views(findings@) == before + named_field_findings(
                all.take(i as int),
                name@,
                file_name@,
            ),
        decreases fields@.len() - i,
    {
        proof {
            assert(all.take(i + 1).drop_last() =~= all.take(i as int));
            assert(all.take(i + 1).last() == fields@[i as int]@);
        }
        let field: &Member = &fields[i];
        if !documented(&field.attrs) {
            add_finding(
                findings,
                Severity::Fail,
                event_field(file_name, field.line, name, &field.name),
            );
        }
        assert(finding_views(findings@) =~= before + named_field_findings(
            all.take(i + 1),
            name@,
            file_name@,
        ));
        i = i + 1;
    }
    assert(all.take(all.len() as int) =~= all);
}

/// Checks the unnamed fields of an event struct.
fn check_unnamed_fields(
    fields: &Vec<Vec<Attr>>,
    name: &str,
    file_name: &str,
    findings: &mut Vec<Finding>,
)
    ensures
        finding_views(final(findings)@) == finding_views(old(findings)@) + unnamed_field_findings(
            unnamed_views(fields@),
            name@,
            file_name@,
        ),
{
    let ghost before = finding_views(findings@);
    let ghost all = unnamed_views(fields@);
    let mut i: usize = 0;
    assert(finding_views(findings@) =~= before + unnamed_field_findings(
        all.take(0),
        name@,
        file_name@,
    ));
    while i < fields.len()
        invariant
            i <= fields@.len(),
            all == unnamed_views(fields@),
            finding_views(findings@) == before + unnamed_field_findings(
                all.take(i as int),
                name@,
                file_name@,
            ),
        decreases fields@.len() - i,
    {
        proof {
            assert(all.take(i + 1).drop_last() =~= all.take(i as int));
            assert(all.take(i + 1).last() == attr_views(fields@[i as int]@));
        }
        if !documented(&fields[i]) {
            add_finding(findings, Severity::Fail, event_unnamed_field(file_name, name, i));
        }
        assert(finding_views(findings@) =~= before + unnamed_field_findings(
            all.take(i + 1),
            name@,
            file_name@,
        ));
        i = i + 1;
    }
    assert(all.take(all.len() as int) =~= all);
}

/// Checks the variants of an event enum.
fn check_event_variants(
    variants: &Vec<Member>,
    name: &str,
    file_name: &str,
    findings: &mut Vec<Finding>,
)
    ensures
        finding_views(final(findings)@) == finding_views(old(findings)@) + event_variant_findings(
            member_views(variants@),
            name@,
            file_name@,
        ),
{
    let ghost before = finding_views(findings@);
    let ghost all = member_views(variants@);
    let mut i: usize = 0;
    assert(finding_views(findings@) =~= before + event_variant_findings(
        all.take(0),
        name@,
        file_name@,
    ));
    while i < variants.len()
        invariant
            i <= variants@.len(),
            all == member_views(variants@),
            finding_views(findings@) == before + event_variant_findings(
                all.take(i as int),
                name@,
                file_name@,
            ),
        decreases variants@.len() - i,
    {
        proof {
            assert(all.take(i + 1).drop_last() =~= all.take(i as int));
            assert(all.take(i + 1).last() == variants@[i as int]@);
        }
        let variant: &Member = &variants[i];
        if !documented(&variant.attrs) {
            add_finding(
                findings,
                Severity::Fail,
                event_variant(file_name, variant.line, name, &variant.name),
            );
        }
        assert(finding_views(findings@) =~= before + event_variant_findings(
            all.take(i + 1),
            name@,
            file_name@,
        ));
        i = i + 1;
    }
    assert(all.take(all.len() as int) =~= all);
}

/// Checks the variants of an error enum: every one should be documented so
/// that the contract's failure modes are described.
fn check_error_variants(
    variants: &Vec<Member>,
    name: &str,
    file_name: &str,
    severity: Severity,
    findings: &mut Vec<Finding>,
)
    ensures
        finding_views(final(findings)@) == finding_views(old(findings)@) + error_variant_findings(
            member_views(variants@),
            name@,
            file_name@,
            severity,
        ),
{
    let ghost before = finding_views(findings@);
    let ghost all = member_views(variants@);
    let mut i: usize = 0;
    assert(finding_views(findings@) =~= before + error_variant_findings(
        all.take(0),
        name@,
        file_name@,
        severity,
    ));
    while i < variants.len()
        invariant
            i <= variants@.len(),
            all == member_views(variants@),
            finding_views(findings@) == before + error_variant_findings(
                all.take(i as int),
                name@,
                file_name@,
                severity,
            ),
        decreases variants@.len() - i,
    {
        proof {
            assert(all.take(i + 1).drop_last() =~= all.take(i as int));
            assert(all.take(i + 1).last() == variants@[i as int]@);
        }
        let variant: &Member = &variants[i];
        if !documented(&variant.attrs) {
            add_finding(
                findings,
                severity,
                error_variant(file_name, variant.line, name, &variant.name),
            );
        }
        assert(finding_views(findings@) =~= before + error_variant_findings(
            all.take(i + 1),
            name@,
            file_name@,
            severity,
        ));
        i = i + 1;
    }
    assert(all.take(all.len() as int) =~= all);
}

/// Checks one top-level item.
fn check_item(
    item: &SourceItem,
    file_name: &str,
    config: &CheckConfig,
    findings: &mut Vec<Finding>,
)
    ensures
        finding_views(final(findings)@) == finding_views(old(findings)@) + item_findings(
            item@,
            file_name@,
            *config,
        ),
{
    let ghost before = finding_views(findings@);
    match item {
        SourceItem::Impl { attrs, members } => {
            if carries(attrs, "contractimpl") {
                check_impl(members, file_name, config, findings);
            }
        },
        SourceItem::Struct { attrs, name, fields } => {
            if config.check_events {
                let has_contracttype: bool = carries(attrs, "contracttype");
                if has_contracttype && event_named(name) {
                    match fields {
                        FieldList::Named(list) => {
                            check_named_fields(list, name, file_name, findings);
                        },
                        FieldList::Unnamed(list) => {
                            check_unnamed_fields(list, name, file_name, findings);
                        },
                        FieldList::Unit => {},
                    }
                }
            }
        },
        SourceItem::Enum { attrs, name, variants } => {
            let has_contracttype: bool = carries(attrs, "contracttype");
            let has_contracterror: bool = carries(attrs, "contracterror");
            if config.check_events {
                if has_contracttype && event_named(name) {
                    check_event_variants(variants, name, file_name, findings);
                }
            }
            if config.check_error_enums && has_contracterror {
                check_error_variants(
                    variants,
                    name,
                    file_name,
                    config.new_check_severity,
                    findings,
                );
            }
        },
        SourceItem::Other => {},
    }
    assert(finding_views(findings@) =~= before + item_findings(item@, file_name@, *config));
}

/// Applies the documentation rules to the items of a source file.
pub fn check_items(items: &Vec<SourceItem>, file_name: &str, config: &CheckConfig) -> (findings:
    Vec<Finding>)
    ensures
        finding_views(findings@) == items_findings(item_views(items@), file_name@, *config),
{
    let mut findings: Vec<Finding> = Vec::new();
    let ghost all = item_views(items@);
    let mut i: usize = 0;
    assert(finding_views(findings@) =~= items_findings(all.take(0), file_name@, *config));
    while i < items.len()
        invariant
            i <= items@.len(),
            all == item_views(items@),
            finding_views(findings@) == items_findings(all.take(i as int), file_name@, *config),
        decreases items@.len() - i,
    {
        proof {
            assert(all.take(i + 1).drop_last() =~= all.take(i as int));
            assert(all.take(i + 1).last() == items@[i as int]@);
        }
        check_item(&items[i], file_name, config, &mut findings);
        i = i + 1;
    }
    assert(all.take(all.len() as int) =~= all);
    findings
}

/// Parses a source text and produces documentation [`Finding`]s per the
/// config. A text that is not valid Rust yields none.
///
/// Exactly the findings on missing doc comments take the severity of the
/// newer rules. A rule that is off leaves out exactly its own messages of
/// what all the rules together report.
pub fn check_docs(content: &str, file_name: &str, config: &CheckConfig) -> (findings: Vec<Finding>)
    ensures
        finding_views(findings@) == source_findings(content@, file_name@, *config),
        has_severities(finding_views(findings@), config.new_check_severity),
        !contains_text(file_name@, " missing docs for "@) ==> forall|all: CheckConfig|
            is_complete(all) && all.new_check_severity == config.new_check_severity
                ==> finding_views(findings@) == left(
                #[trigger] source_findings(content@, file_name@, all),
                *config,
            ),
{
    match parse_source(content) {
        Some(items) => {
            proof {
                law_only_missing_doc_comments_warn(item_views(items@), file_name@, *config);
                assert forall|all: CheckConfig|
                    !contains_text(file_name@, " missing docs for "@) && is_complete(all)
                        && all.new_check_severity
                        == config.new_check_severity implies source_findings(
                    content@,
                    file_name@,
                    *config,
                ) == left(#[trigger] source_findings(content@, file_name@, all), *config) by {
                    law_flags_remove_their_messages(
                        item_views(items@),
                        file_name@,
                        all,
                        *config,
                    );
                }
            }
            check_items(&items, file_name, config)
        },
        None => {
            let findings: Vec<Finding> = Vec::new();
            assert(finding_views(findings@) =~= seq![]);
            findings
        },
    }
}

/// Wrapper returning only the finding messages.
///
/// Its callers treat any reported item as an error regardless of severity,
/// so this collapses [`Finding`]s to plain strings.
pub fn check_contract_docs(content: &str, file_name: &str, check_events: bool) -> (messages: Vec<
    String,
>)
    ensures
        views(messages@) == self::messages(
            source_findings(content@, file_name@, contract_config(check_events)),
        ),
{
    let mut config: CheckConfig = CheckConfig::default();
    config.check_events = check_events;
    config.new_check_severity = Severity::Fail;
    let findings: Vec<Finding> = check_docs(content, file_name, &config);
    let mut messages: Vec<String> = Vec::new();
    let mut i: usize = 0;
    while i < findings.len()
        invariant
            i <= findings@.len(),
            messages@.len() == i,
            forall|j: int| 0 <= j < i ==> #[trigger] messages@[j]@ == findings@[j].message@,
        decreases findings@.len() - i,
    {
        messages.push(findings[i].message.clone());
        i = i + 1;
    }
    assert(views(messages@) =~= self::messages(finding_views(findings@)));
    messages
}

// ---------------------------------------------------------------------------
// Laws
// ---------------------------------------------------------------------------

/// Every finding of the list fails the run.
pub open spec fn all_fail(list: Seq<FindingView>) -> bool {
    forall|i: int| 0 <= i < list.len() ==> (#[trigger] list[i]).severity == Severity::Fail
}

/// `config` with another severity for the newer rules.
pub open spec fn with_severity(config: CheckConfig, severity: Severity) -> CheckConfig {
    CheckConfig { new_check_severity: severity, ..config }
}

proof fn lemma_event_findings_fail(
    fields: FieldListView,
    variants: Seq<MemberView>,
    name: Seq<char>,
    file: Seq<char>,
)
    ensures
        all_fail(field_findings(fields, name, file)),
        all_fail(event_variant_findings(variants, name, file)),
{
    match fields {
        FieldListView::Named(list) => lemma_named_fields_fail(list, name, file),
        FieldListView::Unnamed(list) => lemma_unnamed_fields_fail(list, name, file),
        FieldListView::Unit => {},
    }
    lemma_event_variants_fail(variants, name, file);
}

proof fn lemma_named_fields_fail(list: Seq<MemberView>, name: Seq<char>, file: Seq<char>)
    ensures
        all_fail(named_field_findings(list, name, file)),
    decreases list.len(),
{
    if list.len() > 0 {
        lemma_named_fields_fail(list.drop_last(), name, file);
    }
}

proof fn lemma_unnamed_fields_fail(list: Seq<Seq<AttrView>>, name: Seq<char>, file: Seq<char>)
    ensures
        all_fail(unnamed_field_findings(list, name, file)),
    decreases list.len(),
{
    if list.len() > 0 {
        lemma_unnamed_fields_fail(list.drop_last(), name, file);
    }
}

proof fn lemma_event_variants_fail(list: Seq<MemberView>, name: Seq<char>, file: Seq<char>)
    ensures
        all_fail(event_variant_findings(list, name, file)),
    decreases list.len(),
{
    if list.len() > 0 {
        lemma_event_variants_fail(list.drop_last(), name, file);
    }
}

/// The section rules and the event rules always fail the run, whatever the
/// severity of the newer rules: of a function with a doc comment, of a
/// struct, and of an enum that is no error enum, nothing is reported as a
/// warning.
pub proof fn law_section_and_event_findings_fail(
    func: FnView,
    item: ItemView,
    file: Seq<char>,
    config: CheckConfig,
)
    ensures
        doc_text(func.attrs).len() > 0 ==> all_fail(fn_findings(func, file, config)),
        item is Struct ==> all_fail(item_findings(item, file, config)),
        item is Enum && !has_path(item->Enum_attrs, "contracterror"@) ==> all_fail(
            item_findings(item, file, config),
        ),
{
    match item {
        ItemView::Struct { attrs, name, fields } => {
            lemma_event_findings_fail(fields, seq![], name, file);
        },
        ItemView::Enum { attrs, name, variants } => {
            lemma_event_findings_fail(FieldListView::Unit, variants, name, file);
        },
        _ => {},
    }
}

proof fn lemma_strict_impl(members: Seq<Option<FnView>>, file: Seq<char>, config: CheckConfig)
    requires
        config.new_check_severity == Severity::Fail,
    ensures
        all_fail(impl_findings(members, file, config)),
    decreases members.len(),
{
    if members.len() > 0 {
        lemma_strict_impl(members.drop_last(), file, config);
    }
}

proof fn lemma_strict_error_variants(
    list: Seq<MemberView>,
    name: Seq<char>,
    file: Seq<char>,
    severity: Severity,
)
    requires
        severity == Severity::Fail,
    ensures
        all_fail(error_variant_findings(list, name, file, severity)),
    decreases list.len(),
{
    if list.len() > 0 {
        lemma_strict_error_variants(list.drop_last(), name, file, severity);
    }
}

proof fn lemma_strict_items(items: Seq<ItemView>, file: Seq<char>, config: CheckConfig)
    requires
        config.new_check_severity == Severity::Fail,
    ensures
        all_fail(items_findings(items, file, config)),
    decreases items.len(),
{
    if items.len() > 0 {
        lemma_strict_items(items.drop_last(), file, config);
        match items.last() {
            ItemView::Impl { attrs, members } => lemma_strict_impl(members, file, config),
            ItemView::Struct { attrs, name, fields } => {
                lemma_event_findings_fail(fields, seq![], name, file);
            },
            ItemView::Enum { attrs, name, variants } => {
                lemma_event_findings_fail(FieldListView::Unit, variants, name, file);
                lemma_strict_error_variants(variants, name, file, config.new_check_severity);
            },
            ItemView::Other => {},
        }
    }
}

/// Under `--strict` everything that is reported of a source text fails the
/// run.
pub proof fn law_strict_source_findings_fail(
    content: Seq<char>,
    file: Seq<char>,
    config: CheckConfig,
)
    requires
        config.new_check_severity == Severity::Fail,
    ensures
        all_fail(source_findings(content, file, config)),
{
    match parsed_items(content) {
        Some(items) => lemma_strict_items(items, file, config),
        None => {},
    }
}

/// The messages of two lists written one behind the other.
proof fn lemma_messages_add(a: Seq<FindingView>, b: Seq<FindingView>)
    ensures
        messages(a + b) == messages(a) + messages(b),
{
    assert(messages(a + b) =~= messages(a) + messages(b));
}

proof fn lemma_impl_messages(
    members: Seq<Option<FnView>>,
    file: Seq<char>,
    config: CheckConfig,
    severity: Severity,
)
    ensures
        messages(impl_findings(members, file, config)) == messages(
            impl_findings(members, file, with_severity(config, severity)),
        ),
    decreases members.len(),
{
    let other = with_severity(config, severity);
    if members.len() > 0 {
        let front = members.drop_last();
        lemma_impl_messages(front, file, config, severity);
        if members.last() is Some {
            let func = members.last()->0;
            lemma_messages_add(impl_findings(front, file, config), fn_findings(func, file, config));
            lemma_messages_add(impl_findings(front, file, other), fn_findings(func, file, other));
            assert(messages(fn_findings(func, file, config)) =~= messages(
                fn_findings(func, file, other),
            ));
        }
    }
}

proof fn lemma_error_variant_messages(
    list: Seq<MemberView>,
    name: Seq<char>,
    file: Seq<char>,
    a: Severity,
    b: Severity,
)
    ensures
        messages(error_variant_findings(list, name, file, a)) == messages(
            error_variant_findings(list, name, file, b),
        ),
    decreases list.len(),
{
    if list.len() > 0 {
        lemma_error_variant_messages(list.drop_last(), name, file, a, b);
        let x = error_variant_findings(list.drop_last(), name, file, a);
        let y = error_variant_findings(list.drop_last(), name, file, b);
        let message = error_variant_message(file, list.last().line, name, list.last().name);
        assert(messages(x.push(FindingView { severity: a, message })) =~= messages(x).push(
            message,
        ));
        assert(messages(y.push(FindingView { severity: b, message })) =~= messages(y).push(
            message,
        ));
    }
}

proof fn lemma_items_messages(
    items: Seq<ItemView>,
    file: Seq<char>,
    config: CheckConfig,
    severity: Severity,
)
    ensures
        messages(items_findings(items, file, config)) == messages(
            items_findings(items, file, with_severity(config, severity)),
        ),
    decreases items.len(),
{
    let other = with_severity(config, severity);
    if items.len() > 0 {
        let front = items.drop_last();
        let item = items.last();
        lemma_items_messages(front, file, config, severity);
        lemma_messages_add(items_findings(front, file, config), item_findings(item, file, config));
        lemma_messages_add(items_findings(front, file, other), item_findings(item, file, other));
        match item {
            ItemView::Impl { attrs, members } => {
                lemma_impl_messages(members, file, config, severity);
            },
            ItemView::Enum { attrs, name, variants } => {
                let events = if config.check_events && has_path(attrs, "contracttype"@)
                    && is_event_name(name) {
                    event_variant_findings(variants, name, file)
                } else {
                    seq![]
                };
                let mine = error_variant_findings(
                    variants,
                    name,
                    file,
                    config.new_check_severity,
                );
                let theirs = error_variant_findings(variants, name, file, severity);
                lemma_error_variant_messages(
                    variants,
                    name,
                    file,
                    config.new_check_severity,
                    severity,
                );
                lemma_messages_add(events, mine);
                lemma_messages_add(events, theirs);
            },
            _ => {},
        }
    }
}

/// Sections are looked for whatever the case of their letters: two ASCII doc
/// comments that differ in case only lack the same sections.
pub proof fn law_sections_are_found_in_any_case(
    doc: Seq<char>,
    other: Seq<char>,
    takes_inputs: bool,
    returns_value: bool,
)
    requires
        is_ascii_text(doc),
        is_ascii_text(other),
        ascii_lowercase(doc) == ascii_lowercase(other),
    ensures
        sections_missing(lowercase(doc), takes_inputs, returns_value) == sections_missing(
            lowercase(other),
            takes_inputs,
            returns_value,
        ),
{
}

/// The severity of the newer rules changes what fails the run, not what is
/// reported.
pub proof fn law_severity_does_not_change_messages(
    content: Seq<char>,
    file: Seq<char>,
    config: CheckConfig,
    severity: Severity,
)
    ensures
        messages(source_findings(content, file, config)) == messages(
            source_findings(content, file, with_severity(config, severity)),
        ),
{
    match parsed_items(content) {
        Some(items) => lemma_items_messages(items, file, config, severity),
        None => {},
    }
}

/// A rule that is turned off reports nothing: event structs and enums without
/// `--events`, functions without a doc comment under `--no-undocumented-fns`,
/// and error enums under `--no-error-enums`.
pub proof fn law_disabled_rules_report_nothing(
    func: FnView,
    item: ItemView,
    file: Seq<char>,
    config: CheckConfig,
)
    ensures
        !config.check_undocumented_fns && doc_text(func.attrs).len() == 0 ==> fn_findings(
            func,
            file,
            config,
        ).len() == 0,
        !config.check_events && item is Struct ==> item_findings(item, file, config).len() == 0,
        !config.check_events && !config.check_error_enums && item is Enum ==> item_findings(
            item,
            file,
            config,
        ).len() == 0,
{
}

/// What is reported of an error enum that is no event does not depend on
/// `--events`.
pub proof fn law_error_rule_ignores_events_flag(
    item: ItemView,
    file: Seq<char>,
    config: CheckConfig,
    check_events: bool,
)
    requires
        item is Enum,
        !has_path(item->Enum_attrs, "contracttype"@) || !is_event_name(item->Enum_name),
    ensures
        item_findings(item, file, config) == item_findings(
            item,
            file,
            (CheckConfig { check_events, ..config }),
        ),
{
}

} // verus!
