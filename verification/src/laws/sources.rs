//! What is reported of contract sources.

use crate::checks::{
    contract_config, doc_text, error_variant_findings, event_variant_findings, field_findings,
    fn_findings, has_path, impl_findings, is_ascii_text, is_documented, is_event_name,
    item_findings, items_findings, lowercase, messages, named_field_findings, sections_missing,
    source_findings, unicode_lowercase, unnamed_field_findings,
};
use crate::findings::{default_config, finding_views, CheckConfig, Finding, FindingView, Severity};
use crate::laws::text::law_numerals_stand_for_their_number;
use crate::source::{
    item_views, parsed_items, Attr, AttrView, FieldList, FieldListView, FnItem, FnView, ItemView,
    Member, MemberView, Paths, SourceItem,
};
use crate::text::{contains_text, decimal, join_text, occurs_at, opt_view};
use vstd::prelude::*;

verus! {

// ---------------------------------------------------------------------------
// Doc comments
// ---------------------------------------------------------------------------

/// The text of a line of a doc comment.
pub open spec fn is_doc_line(attr: AttrView, text: Seq<char>) -> bool {
    attr.name == Some("doc"@) && attr.text == Some(text)
}

/// One of the attributes is a line of a doc comment.
pub open spec fn has_doc_line(attrs: Seq<AttrView>) -> bool {
    exists|k: int, text: Seq<char>|
        0 <= k < attrs.len() && #[trigger] is_doc_line(attrs[k], text)
}

/// The doc comment of two lists of attributes is that of the first, followed
/// by that of the second.
pub proof fn law_doc_comments_add_up(a: Seq<AttrView>, b: Seq<AttrView>)
    ensures
        doc_text(a + b) == doc_text(a) + doc_text(b),
    decreases b.len(),
{
    if b.len() == 0 {
        assert(a + b =~= a);
        assert(doc_text(a) + doc_text(b) =~= doc_text(a));
    } else {
        law_doc_comments_add_up(a, b.drop_last());
        assert((a + b).drop_last() =~= a + b.drop_last());
        assert((a + b).last() == b.last());
        assert(doc_text(a + b) =~= doc_text(a) + doc_text(b));
    }
}

/// Every line of a doc comment counts: its text stands in the doc comment, at
/// its place and followed by a line feed. Other attributes add nothing.
pub proof fn law_every_doc_line_counts(
    a: Seq<AttrView>,
    attr: AttrView,
    text: Seq<char>,
    b: Seq<AttrView>,
)
    ensures
        doc_text(Seq::empty()) == Seq::<char>::empty(),
        is_doc_line(attr, text) ==> doc_text(a + seq![attr] + b) == doc_text(a) + text + seq!['\n']
            + doc_text(b),
        is_doc_line(attr, text) ==> contains_text(doc_text(a + seq![attr] + b), text),
        attr.name != Some("doc"@) || attr.text is None ==> doc_text(a + seq![attr] + b) == doc_text(
            a,
        ) + doc_text(b),
{
    let one = seq![attr];
    reveal_strlit("\n");
    assert("\n"@ =~= seq!['\n']);
    assert(one.drop_last() =~= Seq::empty());
    assert(doc_text(one.drop_last()) =~= Seq::empty());
    law_doc_comments_add_up(a + one, b);
    law_doc_comments_add_up(a, one);
    if is_doc_line(attr, text) {
        let whole = doc_text(a + one + b);
        let at = doc_text(a).len() as int;
        assert(doc_text(one) =~= text + seq!['\n']);
        assert(whole =~= doc_text(a) + text + seq!['\n'] + doc_text(b));
        assert(whole.subrange(at, at + text.len()) =~= text);
        assert(occurs_at(whole, text, at));
    }
    if attr.name != Some("doc"@) || attr.text is None {
        assert(doc_text(a) + doc_text(one) =~= doc_text(a));
    }
}

/// There is a doc comment exactly if some attribute is a line of one; then,
/// and only then, is its text not empty.
pub proof fn law_a_doc_comment_has_a_line(attrs: Seq<AttrView>)
    ensures
        is_documented(attrs) <==> has_doc_line(attrs),
        doc_text(attrs).len() > 0 <==> has_doc_line(attrs),
    decreases attrs.len(),
{
    if is_documented(attrs) {
        let i = choose|i: int|
            0 <= i < attrs.len() && #[trigger] attrs[i].name == Some("doc"@) && attrs[i].text
                is Some;
        assert(is_doc_line(attrs[i], attrs[i].text->0));
    }
    if has_doc_line(attrs) {
        let (k, text) = choose|k: int, text: Seq<char>|
            0 <= k < attrs.len() && #[trigger] is_doc_line(attrs[k], text);
        assert(attrs[k].name == Some("doc"@));
        let a = attrs.take(k);
        let b = attrs.skip(k + 1);
        assert(attrs =~= a + seq![attrs[k]] + b);
        law_every_doc_line_counts(a, attrs[k], text, b);
    } else if attrs.len() > 0 {
        let front = attrs.drop_last();
        let last = attrs.last();
        assert(attrs[attrs.len() - 1] == last);
        if last.name == Some("doc"@) && last.text is Some {
            assert(is_doc_line(attrs[attrs.len() - 1], last.text->0));
        }
        if has_doc_line(front) {
            let (k, text) = choose|k: int, text: Seq<char>|
                0 <= k < front.len() && #[trigger] is_doc_line(front[k], text);
            assert(is_doc_line(attrs[k], text));
        }
        law_a_doc_comment_has_a_line(front);
    }
}

/// Lower case changes the capital letters of an ASCII text, and nothing else.
pub proof fn law_lower_case_of_ascii(s: Seq<char>, i: int)
    requires
        forall|k: int| 0 <= k < s.len() ==> #[trigger] s[k] <= '\u{7f}',
    ensures
        lowercase(s).len() == s.len(),
        0 <= i < s.len() && 'A' <= s[i] <= 'Z' ==> lowercase(s)[i] as int == s[i] as int + 32,
        0 <= i < s.len() && !('A' <= s[i] <= 'Z') ==> lowercase(s)[i] == s[i],
{
    assert(is_ascii_text(s));
}

/// Any other text is in lower case what the standard library makes of it.
pub proof fn law_lower_case_of_other_texts(s: Seq<char>, i: int)
    requires
        0 <= i < s.len(),
        s[i] > '\u{7f}',
    ensures
        lowercase(s) == unicode_lowercase(s),
{
    assert(!(s[i] <= '\u{7f}'));
}

/// The sections that a doc comment in lower case lacks: parameters where
/// there are any and neither "param" nor "arguments" stands anywhere, the
/// result where there is one and "return" stands nowhere, and access control
/// where none of "access", "auth" and "require" does.
pub proof fn law_sections_are_missed_where_nothing_mentions_them(
    doc: Seq<char>,
    takes_inputs: bool,
    returns_value: bool,
)
    ensures
        ({
            let missing = sections_missing(doc, takes_inputs, returns_value);
            let params = takes_inputs && !contains_text(doc, "param"@) && !contains_text(
                doc,
                "arguments"@,
            );
            let result = returns_value && !contains_text(doc, "return"@);
            let access = !contains_text(doc, "access"@) && !contains_text(doc, "auth"@)
                && !contains_text(doc, "require"@);
            &&& !params && !result && !access <==> missing.len() == 0
            &&& params && !result && !access ==> missing == seq!["params"@]
            &&& !params && result && !access ==> missing == seq!["return"@]
            &&& !params && !result && access ==> missing == seq!["access control"@]
            &&& params && result && !access ==> missing == seq!["params"@, "return"@]
            &&& params && !result && access ==> missing == seq!["params"@, "access control"@]
            &&& !params && result && access ==> missing == seq!["return"@, "access control"@]
            &&& params && result && access ==> missing == seq![
                "params"@,
                "return"@,
                "access control"@,
            ]
        }),
{
    let missing = sections_missing(doc, takes_inputs, returns_value);
    assert(missing.len() == 1 ==> missing =~= seq![missing[0]]);
    assert(missing.len() == 2 ==> missing =~= seq![missing[0], missing[1]]);
    assert(missing.len() == 3 ==> missing =~= seq![missing[0], missing[1], missing[2]]);
}

// ---------------------------------------------------------------------------
// Functions
// ---------------------------------------------------------------------------

/// What is reported of a public function: that it has no doc comment, or
/// which sections its doc comment lacks, all its lines taken together, or
/// nothing. A function that is not public is passed over.
pub proof fn law_functions_are_reported(func: FnView, file: Seq<char>, config: CheckConfig)
    ensures
        !func.public ==> fn_findings(func, file, config) == Seq::<FindingView>::empty(),
        func.public && !has_doc_line(func.attrs) && !config.check_undocumented_fns ==> fn_findings(
            func,
            file,
            config,
        ) == Seq::<FindingView>::empty(),
        func.public && !has_doc_line(func.attrs) && config.check_undocumented_fns ==> fn_findings(
            func,
            file,
            config,
        ) == seq![
            FindingView {
                severity: config.new_check_severity,
                message: file + ":"@ + decimal(func.line) + ": fn "@ + func.name
                    + " has no doc comment at all"@,
            },
        ],
        func.public && has_doc_line(func.attrs) ==> {
            let missing = sections_missing(
                lowercase(doc_text(func.attrs)),
                func.inputs > 0,
                func.returns_value,
            );
            &&& missing.len() == 0 ==> fn_findings(func, file, config)
                == Seq::<FindingView>::empty()
            &&& missing.len() > 0 ==> fn_findings(func, file, config) == seq![
                FindingView {
                    severity: Severity::Fail,
                    message: file + ":"@ + decimal(func.line) + ": fn "@ + func.name + " missing "@
                        + join_text(missing, ", "@),
                },
            ]
        },
{
    law_a_doc_comment_has_a_line(func.attrs);
}

/// A text stands in lower case where it stands.
proof fn lemma_lower_case_stands(s: Seq<char>, text: Seq<char>, words: Seq<char>)
    requires
        forall|k: int| 0 <= k < s.len() ==> #[trigger] s[k] <= '\u{7f}',
        contains_text(s, text),
        contains_text(lowercase(text), words),
    ensures
        contains_text(lowercase(s), words),
{
    let i = choose|i: int| occurs_at(s, text, i);
    assert(s.subrange(i, i + text.len()) == text);
    assert forall|k: int| 0 <= k < text.len() implies #[trigger] text[k] <= '\u{7f}' by {
        assert(s.subrange(i, i + text.len())[k] == s[i + k]);
    }
    assert(is_ascii_text(s) && is_ascii_text(text));
    let j = choose|j: int| occurs_at(lowercase(text), words, j);
    let own = lowercase(s).subrange(i + j, i + j + words.len());
    let inner = lowercase(text).subrange(j, j + words.len());
    assert forall|k: int| 0 <= k < words.len() implies own[k] == #[trigger] inner[k] by {
        assert(s.subrange(i, i + text.len())[j + k] == s[i + j + k]);
    }
    assert(own =~= words);
    assert(occurs_at(lowercase(s), words, i + j));
}

/// One of the lines of a doc comment holds the words, in letters of either
/// case.
pub open spec fn some_line_mentions(attrs: Seq<AttrView>, words: Seq<char>) -> bool {
    exists|k: int, text: Seq<char>|
        0 <= k < attrs.len() && #[trigger] is_doc_line(attrs[k], text) && contains_text(
            lowercase(text),
            words,
        )
}

proof fn lemma_line_is_found(attrs: Seq<AttrView>, words: Seq<char>)
    requires
        is_ascii_text(doc_text(attrs)),
        some_line_mentions(attrs, words),
    ensures
        contains_text(lowercase(doc_text(attrs)), words),
{
    let (k, text) = choose|k: int, text: Seq<char>|
        0 <= k < attrs.len() && #[trigger] is_doc_line(attrs[k], text) && contains_text(
            lowercase(text),
            words,
        );
    let a = attrs.take(k);
    let b = attrs.skip(k + 1);
    assert(attrs =~= a + seq![attrs[k]] + b);
    law_every_doc_line_counts(a, attrs[k], text, b);
    lemma_lower_case_stands(doc_text(attrs), text, words);
}

/// The sections may stand on any lines of the doc comment: where one line
/// speaks of parameters, one of the result and one of access control, nothing
/// is reported of the function.
pub proof fn law_sections_may_stand_on_any_line(
    func: FnView,
    file: Seq<char>,
    config: CheckConfig,
)
    requires
        is_ascii_text(doc_text(func.attrs)),
        func.inputs == 0 || some_line_mentions(func.attrs, "param"@) || some_line_mentions(
            func.attrs,
            "arguments"@,
        ),
        !func.returns_value || some_line_mentions(func.attrs, "return"@),
        some_line_mentions(func.attrs, "access"@) || some_line_mentions(func.attrs, "auth"@)
            || some_line_mentions(func.attrs, "require"@),
    ensures
        fn_findings(func, file, config) == Seq::<FindingView>::empty(),
{
    let attrs = func.attrs;
    let doc = lowercase(doc_text(attrs));
    if some_line_mentions(attrs, "param"@) {
        lemma_line_is_found(attrs, "param"@);
    }
    if some_line_mentions(attrs, "arguments"@) {
        lemma_line_is_found(attrs, "arguments"@);
    }
    if some_line_mentions(attrs, "return"@) {
        lemma_line_is_found(attrs, "return"@);
    }
    if some_line_mentions(attrs, "access"@) {
        lemma_line_is_found(attrs, "access"@);
    }
    if some_line_mentions(attrs, "auth"@) {
        lemma_line_is_found(attrs, "auth"@);
    }
    if some_line_mentions(attrs, "require"@) {
        lemma_line_is_found(attrs, "require"@);
    }
    law_sections_are_missed_where_nothing_mentions_them(
        doc,
        func.inputs > 0,
        func.returns_value,
    );
    law_functions_are_reported(func, file, config);
    assert(has_doc_line(attrs));
}

/// Every function of a contract block is judged on its own, whatever the
/// other members are; what is no function adds nothing.
pub proof fn law_every_function_is_looked_at(
    a: Seq<Option<FnView>>,
    func: FnView,
    b: Seq<Option<FnView>>,
    file: Seq<char>,
    config: CheckConfig,
)
    ensures
        impl_findings(Seq::empty(), file, config) == Seq::<FindingView>::empty(),
        impl_findings(a + seq![Some(func)] + b, file, config) == impl_findings(a, file, config)
            + fn_findings(func, file, config) + impl_findings(b, file, config),
        impl_findings(a + seq![None] + b, file, config) == impl_findings(a, file, config)
            + impl_findings(b, file, config),
{
    let one = seq![Some(func)];
    let none = seq![None::<FnView>];
    assert(one.drop_last() =~= Seq::empty());
    assert(none.drop_last() =~= Seq::empty());
    assert(impl_findings(Seq::empty(), file, config) =~= Seq::empty());
    lemma_impl_add(a + one, b, file, config);
    lemma_impl_add(a, one, file, config);
    lemma_impl_add(a + none, b, file, config);
    lemma_impl_add(a, none, file, config);
    assert(impl_findings(one, file, config) =~= fn_findings(func, file, config));
    assert(impl_findings(a, file, config) + impl_findings(none, file, config) =~= impl_findings(
        a,
        file,
        config,
    ));
}

proof fn lemma_impl_add(
    a: Seq<Option<FnView>>,
    b: Seq<Option<FnView>>,
    file: Seq<char>,
    config: CheckConfig,
)
    ensures
        impl_findings(a + b, file, config) == impl_findings(a, file, config) + impl_findings(
            b,
            file,
            config,
        ),
    decreases b.len(),
{
    if b.len() == 0 {
        assert(a + b =~= a);
        assert(impl_findings(a, file, config) + impl_findings(b, file, config) =~= impl_findings(
            a,
            file,
            config,
        ));
    } else {
        lemma_impl_add(a, b.drop_last(), file, config);
        assert((a + b).drop_last() =~= a + b.drop_last());
        assert((a + b).last() == b.last());
        assert(impl_findings(a + b, file, config) =~= impl_findings(a, file, config)
            + impl_findings(b, file, config));
    }
}

// ---------------------------------------------------------------------------
// Fields and variants
// ---------------------------------------------------------------------------

/// The finding, if any, on a member without a doc comment.
pub open spec fn unless_documented(
    attrs: Seq<AttrView>,
    severity: Severity,
    message: Seq<char>,
) -> Seq<FindingView> {
    if has_doc_line(attrs) {
        Seq::empty()
    } else {
        seq![FindingView { severity, message }]
    }
}

/// A named field of an event struct is reported exactly if it has no doc
/// comment itself, whatever the other fields have.
pub proof fn law_every_named_field_is_looked_at(
    a: Seq<MemberView>,
    field: MemberView,
    b: Seq<MemberView>,
    name: Seq<char>,
    file: Seq<char>,
)
    ensures
        named_field_findings(Seq::empty(), name, file) == Seq::<FindingView>::empty(),
        named_field_findings(a + seq![field] + b, name, file) == named_field_findings(a, name, file)
            + unless_documented(
            field.attrs,
            Severity::Fail,
            file + ":"@ + decimal(field.line) + ": struct "@ + name + " missing docs for field "@
                + field.name,
        ) + named_field_findings(b, name, file),
{
    let one = seq![field];
    assert(one.drop_last() =~= Seq::empty());
    assert(named_field_findings(one.drop_last(), name, file) =~= Seq::empty());
    law_a_doc_comment_has_a_line(field.attrs);
    lemma_named_add(a + one, b, name, file);
    lemma_named_add(a, one, name, file);
    assert(named_field_findings(one, name, file) =~= unless_documented(
        field.attrs,
        Severity::Fail,
        file + ":"@ + decimal(field.line) + ": struct "@ + name + " missing docs for field "@
            + field.name,
    ));
}

proof fn lemma_named_add(
    a: Seq<MemberView>,
    b: Seq<MemberView>,
    name: Seq<char>,
    file: Seq<char>,
)
    ensures
        named_field_findings(a + b, name, file) == named_field_findings(a, name, file)
            + named_field_findings(b, name, file),
    decreases b.len(),
{
    if b.len() == 0 {
        assert(a + b =~= a);
        assert(named_field_findings(a, name, file) + named_field_findings(b, name, file)
            =~= named_field_findings(a, name, file));
    } else {
        lemma_named_add(a, b.drop_last(), name, file);
        assert((a + b).drop_last() =~= a + b.drop_last());
        assert((a + b).last() == b.last());
        assert(named_field_findings(a + b, name, file) =~= named_field_findings(a, name, file)
            + named_field_findings(b, name, file));
    }
}

/// The finding on an unnamed field.
pub open spec fn unnamed_finding(index: nat, name: Seq<char>, file: Seq<char>) -> FindingView {
    FindingView {
        severity: Severity::Fail,
        message: file + ": struct "@ + name + " missing docs for unnamed field "@ + decimal(index),
    }
}

/// One more unnamed field of an event struct adds a finding with its index
/// exactly if it has no doc comment itself.
pub proof fn law_unnamed_fields_are_reported_in_order(
    list: Seq<Seq<AttrView>>,
    attrs: Seq<AttrView>,
    name: Seq<char>,
    file: Seq<char>,
)
    ensures
        unnamed_field_findings(Seq::empty(), name, file) == Seq::<FindingView>::empty(),
        has_doc_line(attrs) ==> unnamed_field_findings(list.push(attrs), name, file)
            == unnamed_field_findings(list, name, file),
        !has_doc_line(attrs) ==> unnamed_field_findings(list.push(attrs), name, file)
            == unnamed_field_findings(list, name, file).push(
            unnamed_finding(list.len(), name, file),
        ),
{
    assert(list.push(attrs).drop_last() =~= list);
    law_a_doc_comment_has_a_line(attrs);
}

/// An unnamed field of an event struct is reported exactly if it has no doc
/// comment itself, whatever the other fields have.
pub proof fn law_every_unnamed_field_is_looked_at(
    list: Seq<Seq<AttrView>>,
    i: int,
    name: Seq<char>,
    file: Seq<char>,
)
    requires
        0 <= i < list.len(),
    ensures
        unnamed_field_findings(list, name, file).contains(unnamed_finding(i as nat, name, file))
            <==> !has_doc_line(list[i]),
{
    lemma_unnamed_holds(list, i as nat, name, file);
}

proof fn lemma_unnamed_holds(
    list: Seq<Seq<AttrView>>,
    i: nat,
    name: Seq<char>,
    file: Seq<char>,
)
    ensures
        unnamed_field_findings(list, name, file).contains(unnamed_finding(i, name, file)) <==> i
            < list.len() && !has_doc_line(list[i as int]),
    decreases list.len(),
{
    let finding = unnamed_finding(i, name, file);
    let after = unnamed_field_findings(list, name, file);
    if list.len() > 0 {
        let front = list.drop_last();
        let before = unnamed_field_findings(front, name, file);
        let k = (list.len() - 1) as nat;
        let last = unnamed_finding(k, name, file);
        assert(list =~= front.push(list.last()));
        law_unnamed_fields_are_reported_in_order(front, list.last(), name, file);
        lemma_unnamed_holds(front, i, name, file);
        if before.contains(finding) {
            let j = choose|j: int| 0 <= j < before.len() && before[j] == finding;
            assert(after[j] == finding);
        }
        if finding == last {
            let begin = file + ": struct "@ + name + " missing docs for unnamed field "@;
            assert(finding.message.skip(begin.len() as int) =~= decimal(i));
            assert(last.message.skip(begin.len() as int) =~= decimal(k));
            law_numerals_stand_for_their_number(i);
            law_numerals_stand_for_their_number(k);
        }
        if after.contains(finding) && !before.contains(finding) {
            let j = choose|j: int| 0 <= j < after.len() && after[j] == finding;
            if j < before.len() {
                assert(before[j] == finding);
            }
            assert(finding == last);
        }
        if i == k && !has_doc_line(list.last()) {
            assert(after[before.len() as int] == finding);
        }
        if i < k {
            assert(front[i as int] == list[i as int]);
        }
    }
}

/// A variant of an event enum is reported exactly if it has no doc comment
/// itself, whatever the other variants have.
pub proof fn law_every_event_variant_is_looked_at(
    a: Seq<MemberView>,
    variant: MemberView,
    b: Seq<MemberView>,
    name: Seq<char>,
    file: Seq<char>,
)
    ensures
        event_variant_findings(Seq::empty(), name, file) == Seq::<FindingView>::empty(),
        event_variant_findings(a + seq![variant] + b, name, file) == event_variant_findings(
            a,
            name,
            file,
        ) + unless_documented(
            variant.attrs,
            Severity::Fail,
            file + ":"@ + decimal(variant.line) + ": enum "@ + name + " missing docs for variant "@
                + variant.name,
        ) + event_variant_findings(b, name, file),
{
    let one = seq![variant];
    assert(one.drop_last() =~= Seq::empty());
    assert(event_variant_findings(one.drop_last(), name, file) =~= Seq::empty());
    law_a_doc_comment_has_a_line(variant.attrs);
    lemma_event_variants_add(a + one, b, name, file);
    lemma_event_variants_add(a, one, name, file);
    assert(event_variant_findings(one, name, file) =~= unless_documented(
        variant.attrs,
        Severity::Fail,
        file + ":"@ + decimal(variant.line) + ": enum "@ + name + " missing docs for variant "@
            + variant.name,
    ));
}

proof fn lemma_event_variants_add(
    a: Seq<MemberView>,
    b: Seq<MemberView>,
    name: Seq<char>,
    file: Seq<char>,
)
    ensures
        event_variant_findings(a + b, name, file) == event_variant_findings(a, name, file)
            + event_variant_findings(b, name, file),
    decreases b.len(),
{
    if b.len() == 0 {
        assert(a + b =~= a);
        assert(event_variant_findings(a, name, file) + event_variant_findings(b, name, file)
            =~= event_variant_findings(a, name, file));
    } else {
        lemma_event_variants_add(a, b.drop_last(), name, file);
        assert((a + b).drop_last() =~= a + b.drop_last());
        assert((a + b).last() == b.last());
        assert(event_variant_findings(a + b, name, file) =~= event_variant_findings(a, name, file)
            + event_variant_findings(b, name, file));
    }
}

/// A variant of an error enum is reported exactly if it has no doc comment
/// itself, whatever the other variants have.
pub proof fn law_every_error_variant_is_looked_at(
    a: Seq<MemberView>,
    variant: MemberView,
    b: Seq<MemberView>,
    name: Seq<char>,
    file: Seq<char>,
    severity: Severity,
)
    ensures
        error_variant_findings(Seq::empty(), name, file, severity) == Seq::<FindingView>::empty(),
        error_variant_findings(a + seq![variant] + b, name, file, severity)
            == error_variant_findings(a, name, file, severity) + unless_documented(
            variant.attrs,
            severity,
            file + ":"@ + decimal(variant.line) + ": error enum "@ + name + " variant "@
                + variant.name + " has no doc comment"@,
        ) + error_variant_findings(b, name, file, severity),
{
    let one = seq![variant];
    assert(one.drop_last() =~= Seq::empty());
    assert(error_variant_findings(one.drop_last(), name, file, severity) =~= Seq::empty());
    law_a_doc_comment_has_a_line(variant.attrs);
    lemma_error_variants_add(a + one, b, name, file, severity);
    lemma_error_variants_add(a, one, name, file, severity);
    assert(error_variant_findings(one, name, file, severity) =~= unless_documented(
        variant.attrs,
        severity,
        file + ":"@ + decimal(variant.line) + ": error enum "@ + name + " variant "@ + variant.name
            + " has no doc comment"@,
    ));
}

proof fn lemma_error_variants_add(
    a: Seq<MemberView>,
    b: Seq<MemberView>,
    name: Seq<char>,
    file: Seq<char>,
    severity: Severity,
)
    ensures
        error_variant_findings(a + b, name, file, severity) == error_variant_findings(
            a,
            name,
            file,
            severity,
        ) + error_variant_findings(b, name, file, severity),
    decreases b.len(),
{
    if b.len() == 0 {
        assert(a + b =~= a);
        assert(error_variant_findings(a, name, file, severity) + error_variant_findings(
            b,
            name,
            file,
            severity,
        ) =~= error_variant_findings(a, name, file, severity));
    } else {
        lemma_error_variants_add(a, b.drop_last(), name, file, severity);
        assert((a + b).drop_last() =~= a + b.drop_last());
        assert((a + b).last() == b.last());
        assert(error_variant_findings(a + b, name, file, severity) =~= error_variant_findings(
            a,
            name,
            file,
            severity,
        ) + error_variant_findings(b, name, file, severity));
    }
}

// ---------------------------------------------------------------------------
// Items
// ---------------------------------------------------------------------------

/// A marker counts at any place among the attributes, and what stands in
/// front and behind makes no difference.
pub proof fn law_markers_count_at_any_place(a: Paths, name: Seq<char>, b: Paths)
    ensures
        has_path(a + seq![Some(name)] + b, name),
        has_path(a + b, name) <==> has_path(a, name) || has_path(b, name),
        has_path(a, name) <==> exists|i: int| 0 <= i < a.len() && #[trigger] a[i] == Some(name),
{
    let all = a + seq![Some(name)] + b;
    let both = a + b;
    assert(all[a.len() as int] == Some(name));
    if has_path(both, name) {
        let i = choose|i: int| 0 <= i < both.len() && both[i] == Some(name);
        if i < a.len() {
            assert(a[i] == Some(name));
        } else {
            assert(b[i - a.len()] == Some(name));
        }
    }
    if has_path(a, name) {
        let i = choose|i: int| 0 <= i < a.len() && a[i] == Some(name);
        assert(both[i] == Some(name));
    }
    if has_path(b, name) {
        let i = choose|i: int| 0 <= i < b.len() && b[i] == Some(name);
        assert(both[a.len() + i] == Some(name));
    }
}

/// An event is known by its name, in which `Event` or `Payload` stands.
pub proof fn law_events_are_known_by_their_name(front: Seq<char>, rest: Seq<char>, name: Seq<char>)
    ensures
        is_event_name(front + "Event"@ + rest),
        is_event_name(front + "Payload"@ + rest),
        is_event_name(name) ==> contains_text(name, "Event"@) || contains_text(name, "Payload"@),
{
    let at = front.len() as int;
    let x = front + "Event"@ + rest;
    let y = front + "Payload"@ + rest;
    assert(x.subrange(at, at + "Event"@.len()) =~= "Event"@);
    assert(y.subrange(at, at + "Payload"@.len()) =~= "Payload"@);
    assert(occurs_at(x, "Event"@, at));
    assert(occurs_at(y, "Payload"@, at));
}

/// Blocks marked `contractimpl` are looked at, and no others.
pub proof fn law_contract_blocks_are_looked_at(
    attrs: Paths,
    members: Seq<Option<FnView>>,
    file: Seq<char>,
    config: CheckConfig,
)
    ensures
        item_findings(ItemView::Impl { attrs, members }, file, config) == if attrs.contains(
            Some("contractimpl"@),
        ) {
            impl_findings(members, file, config)
        } else {
            Seq::<FindingView>::empty()
        },
        item_findings(ItemView::Other, file, config) == Seq::<FindingView>::empty(),
{
    law_markers_count_at_any_place(attrs, "contractimpl"@, Seq::empty());
}

/// Structs marked `contracttype` whose name is that of an event are looked
/// at where the event rules are on, and no others.
pub proof fn law_event_structs_are_looked_at(
    attrs: Paths,
    name: Seq<char>,
    fields: FieldListView,
    file: Seq<char>,
    config: CheckConfig,
)
    ensures
        ({
            let findings = item_findings(ItemView::Struct { attrs, name, fields }, file, config);
            let looked_at = config.check_events && attrs.contains(Some("contracttype"@)) && (
            contains_text(name, "Event"@) || contains_text(name, "Payload"@));
            &&& !looked_at ==> findings == Seq::<FindingView>::empty()
            &&& looked_at && fields is Named ==> findings == named_field_findings(
                fields->Named_0,
                name,
                file,
            )
            &&& looked_at && fields is Unnamed ==> findings == unnamed_field_findings(
                fields->Unnamed_0,
                name,
                file,
            )
            &&& looked_at && fields is Unit ==> findings == Seq::<FindingView>::empty()
        }),
{
    law_markers_count_at_any_place(attrs, "contracttype"@, Seq::empty());
    assert(field_findings(FieldListView::Unit, name, file) =~= Seq::empty());
}

/// Enums marked `contracttype` whose name is that of an event are looked at
/// by the event rule, and those marked `contracterror` by the error rule,
/// each where the rule is on, and no others.
pub proof fn law_enums_are_looked_at(
    attrs: Paths,
    name: Seq<char>,
    variants: Seq<MemberView>,
    file: Seq<char>,
    config: CheckConfig,
)
    ensures
        ({
            let findings = item_findings(ItemView::Enum { attrs, name, variants }, file, config);
            let is_event = config.check_events && attrs.contains(Some("contracttype"@)) && (
            contains_text(name, "Event"@) || contains_text(name, "Payload"@));
            let is_error = config.check_error_enums && attrs.contains(Some("contracterror"@));
            let events = event_variant_findings(variants, name, file);
            let errors = error_variant_findings(variants, name, file, config.new_check_severity);
            &&& !is_event && !is_error ==> findings == Seq::<FindingView>::empty()
            &&& is_event && !is_error ==> findings == events
            &&& !is_event && is_error ==> findings == errors
            &&& is_event && is_error ==> findings == events + errors
        }),
{
    law_markers_count_at_any_place(attrs, "contracttype"@, Seq::empty());
    law_markers_count_at_any_place(attrs, "contracterror"@, Seq::empty());
    let nothing = Seq::<FindingView>::empty();
    let events = event_variant_findings(variants, name, file);
    let errors = error_variant_findings(variants, name, file, config.new_check_severity);
    assert(events + nothing =~= events);
    assert(nothing + errors =~= errors);
    assert(nothing + nothing =~= nothing);
}

/// An attribute that is no marker changes nothing, wherever it stands.
pub proof fn law_other_attributes_change_nothing(
    a: Paths,
    other: Option<Seq<char>>,
    b: Paths,
    members: Seq<Option<FnView>>,
    name: Seq<char>,
    fields: FieldListView,
    variants: Seq<MemberView>,
    file: Seq<char>,
    config: CheckConfig,
)
    requires
        other != Some("contractimpl"@),
        other != Some("contracttype"@),
        other != Some("contracterror"@),
    ensures
        item_findings(ItemView::Impl { attrs: a + seq![other] + b, members }, file, config)
            == item_findings(ItemView::Impl { attrs: a + b, members }, file, config),
        item_findings(ItemView::Struct { attrs: a + seq![other] + b, name, fields }, file, config)
            == item_findings(ItemView::Struct { attrs: a + b, name, fields }, file, config),
        item_findings(ItemView::Enum { attrs: a + seq![other] + b, name, variants }, file, config)
            == item_findings(ItemView::Enum { attrs: a + b, name, variants }, file, config),
{
    lemma_other_attribute(a, other, b, "contractimpl"@);
    lemma_other_attribute(a, other, b, "contracttype"@);
    lemma_other_attribute(a, other, b, "contracterror"@);
}

proof fn lemma_other_attribute(a: Paths, other: Option<Seq<char>>, b: Paths, name: Seq<char>)
    requires
        other != Some(name),
    ensures
        has_path(a + seq![other] + b, name) == has_path(a + b, name),
{
    law_markers_count_at_any_place(a + seq![other], name, b);
    law_markers_count_at_any_place(a, name, seq![other]);
    law_markers_count_at_any_place(a, name, b);
    law_markers_count_at_any_place(seq![other], name, b);
}

/// Every item of a file is looked at on its own, whatever the other items
/// are. Of a text that is not valid Rust nothing is reported.
pub proof fn law_every_item_is_looked_at(
    a: Seq<ItemView>,
    item: ItemView,
    b: Seq<ItemView>,
    content: Seq<char>,
    file: Seq<char>,
    config: CheckConfig,
)
    ensures
        items_findings(Seq::empty(), file, config) == Seq::<FindingView>::empty(),
        items_findings(a + seq![item] + b, file, config) == items_findings(a, file, config)
            + item_findings(item, file, config) + items_findings(b, file, config),
        parsed_items(content) == Some(a + seq![item] + b) ==> source_findings(content, file, config)
            == items_findings(a, file, config) + item_findings(item, file, config)
            + items_findings(b, file, config),
        parsed_items(content) is None ==> source_findings(content, file, config)
            == Seq::<FindingView>::empty(),
{
    let one = seq![item];
    assert(one.drop_last() =~= Seq::empty());
    assert(items_findings(one.drop_last(), file, config) =~= Seq::empty());
    lemma_items_add(a + one, b, file, config);
    lemma_items_add(a, one, file, config);
    assert(items_findings(one, file, config) =~= item_findings(item, file, config));
}

proof fn lemma_items_add(
    a: Seq<ItemView>,
    b: Seq<ItemView>,
    file: Seq<char>,
    config: CheckConfig,
)
    ensures
        items_findings(a + b, file, config) == items_findings(a, file, config) + items_findings(
            b,
            file,
            config,
        ),
    decreases b.len(),
{
    if b.len() == 0 {
        assert(a + b =~= a);
        assert(items_findings(a, file, config) + items_findings(b, file, config)
            =~= items_findings(a, file, config));
    } else {
        lemma_items_add(a, b.drop_last(), file, config);
        assert((a + b).drop_last() =~= a + b.drop_last());
        assert((a + b).last() == b.last());
        assert(items_findings(a + b, file, config) =~= items_findings(a, file, config)
            + items_findings(b, file, config));
    }
}

// ---------------------------------------------------------------------------
// Configuration and models
// ---------------------------------------------------------------------------

/// By default all rules but those on events are on, and the newer ones warn.
/// Callers that want messages alone get those of the default rules, with or
/// without the event rules.
pub proof fn law_default_rules(check_events: bool)
    ensures
        ({
            let config = default_config();
            &&& !config.check_events
            &&& config.check_undocumented_fns && config.check_error_enums
            &&& config.check_orphaned_docs && config.check_stale_refs
            &&& config.new_check_severity == Severity::Warn
        }),
        contract_config(check_events).check_events == check_events,
        contract_config(check_events).check_undocumented_fns,
        contract_config(check_events).check_error_enums,
{
}

/// The messages of a list of findings are those of each, in order.
pub proof fn law_messages_are_kept(list: Seq<FindingView>, findings: Seq<Finding>)
    ensures
        messages(list).len() == list.len(),
        forall|i: int| 0 <= i < list.len() ==> #[trigger] messages(list)[i] == list[i].message,
        finding_views(findings).len() == findings.len(),
        forall|i: int|
            0 <= i < findings.len() ==> (#[trigger] finding_views(findings)[i]).message
                == findings[i].message@ && finding_views(findings)[i].severity
                == findings[i].severity,
{
}

/// The model of a list of attributes holds each of them.
pub open spec fn models_attrs(model: Seq<AttrView>, attrs: Seq<Attr>) -> bool {
    &&& model.len() == attrs.len()
    &&& forall|i: int|
        0 <= i < attrs.len() ==> (#[trigger] model[i]).name == opt_view(attrs[i].name)
            && model[i].text == opt_view(attrs[i].text)
}

/// The model of a function holds all that was read of it.
pub open spec fn models_fn(model: FnView, func: FnItem) -> bool {
    &&& model.public == func.public
    &&& model.name == func.name@
    &&& model.line == func.line
    &&& model.inputs == func.inputs
    &&& model.returns_value == func.returns_value
    &&& models_attrs(model.attrs, func.attrs@)
}

/// The model of a list of members holds all that was read of each.
pub open spec fn models_members(model: Seq<MemberView>, members: Seq<Member>) -> bool {
    &&& model.len() == members.len()
    &&& forall|i: int|
        0 <= i < members.len() ==> (#[trigger] model[i]).name == members[i].name@ && model[i].line
            == members[i].line && models_attrs(model[i].attrs, members[i].attrs@)
}

/// The model of the paths of attributes holds each of them.
pub open spec fn models_paths(model: Paths, paths: Seq<Option<String>>) -> bool {
    &&& model.len() == paths.len()
    &&& forall|i: int| 0 <= i < paths.len() ==> #[trigger] model[i] == opt_view(paths[i])
}

/// The model of an item holds all that was read of it, and that of a list of
/// items each of them.
pub proof fn law_models_hold_what_was_read(item: SourceItem, list: Seq<SourceItem>)
    ensures
        item is Impl ==> {
            &&& item@ is Impl
            &&& models_paths(item@->Impl_attrs, item->Impl_attrs@)
            &&& item@->members.len() == item->members@.len()
            &&& forall|i: int|
                0 <= i < item->members@.len() ==> match #[trigger] item->members@[i] {
                    Some(func) => item@->members[i] is Some && models_fn(
                        item@->members[i]->0,
                        func,
                    ),
                    None => item@->members[i] is None,
                }
        },
        item is Struct ==> {
            &&& item@ is Struct
            &&& models_paths(item@->Struct_attrs, item->Struct_attrs@)
            &&& item@->Struct_name == item->Struct_name@
            &&& match item->fields {
                FieldList::Named(members) => item@->fields is Named && models_members(
                    item@->fields->Named_0,
                    members@,
                ),
                FieldList::Unnamed(fields) => {
                    &&& item@->fields is Unnamed
                    &&& item@->fields->Unnamed_0.len() == fields@.len()
                    &&& forall|i: int|
                        0 <= i < fields@.len() ==> models_attrs(
                            #[trigger] item@->fields->Unnamed_0[i],
                            fields@[i]@,
                        )
                },
                FieldList::Unit => item@->fields is Unit,
            }
        },
        item is Enum ==> {
            &&& item@ is Enum
            &&& models_paths(item@->Enum_attrs, item->Enum_attrs@)
            &&& item@->Enum_name == item->Enum_name@
            &&& models_members(item@->variants, item->variants@)
        },
        item is Other ==> item@ is Other,
        item_views(list).len() == list.len(),
        forall|i: int| 0 <= i < list.len() ==> #[trigger] item_views(list)[i] == list[i]@,
{
}

} // verus!
