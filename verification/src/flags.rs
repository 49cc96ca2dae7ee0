//! What the configuration changes in the findings on a source file.

use crate::checks::{
    doc_text, error_variant_findings, event_variant_findings, field_findings, fn_findings, has_path,
    impl_findings, is_event_name, item_findings, items_findings, lowercase, named_field_findings,
    sections_missing, unnamed_field_findings,
};
use crate::findings::{
    error_variant_message, fn_missing_message, fn_undocumented_message, CheckConfig, FindingView,
    Severity,
};
use crate::shape::is_name;
use crate::source::{
    are_named, are_named_members, is_named, AttrView, FieldListView, FnView, ItemView, MemberView,
};
use crate::text::{contains_text, decimal, ends_with, join_text, lemma_decimal_digits, occurs_at};
use vstd::prelude::*;

verus! {

// ---------------------------------------------------------------------------
// Telling the kinds of messages apart
// ---------------------------------------------------------------------------

/// The message of an event rule.
pub open spec fn is_event_message(message: Seq<char>) -> bool {
    contains_text(message, " missing docs for "@)
}

/// The message on a function without any doc comment.
pub open spec fn is_undocumented_message(message: Seq<char>) -> bool {
    ends_with(message, "has no doc comment at all"@)
}

/// The message on an error variant without a doc comment.
pub open spec fn is_error_message(message: Seq<char>) -> bool {
    ends_with(message, "has no doc comment"@)
}

/// A text whose last word is `word`, behind a space at `at`.
spec fn is_last_word(message: Seq<char>, at: int, word: Seq<char>) -> bool {
    &&& 2 <= at < message.len()
    &&& message[at] == ' '
    &&& message.subrange(at + 1, message.len() as int) == word
    &&& forall|i: int| 0 <= i < word.len() ==> #[trigger] word[i] != ' '
}

/// Where the last word decides: a text whose last word follows on `field` or
/// `variant` does not say that there is no doc comment.
proof fn lemma_last_word(message: Seq<char>, at: int, word: Seq<char>)
    requires
        is_last_word(message, at, word),
        message[at - 1] == 'd' || message[at - 1] == 't' && message[at - 2] == 'n',
    ensures
        !is_undocumented_message(message),
        !is_error_message(message),
{
    reveal_strlit("has no doc comment at all");
    reveal_strlit("has no doc comment");
    let n = message.len() as int;
    assert forall|i: int| at < i < n implies #[trigger] message[i] != ' ' by {
        assert(message.subrange(at + 1, n)[i - at - 1] == message[i]);
    }
    if is_undocumented_message(message) {
        let suffix = "has no doc comment at all"@;
        let tail = message.subrange(n - 25, n);
        assert(tail == suffix);
        assert(tail[21] == message[n - 4] && tail[20] == message[n - 5] && tail[19] == message[n
            - 6]);
        assert(suffix[21] == ' ' && suffix[20] == 't' && suffix[19] == 'a');
        assert(tail[22] == message[n - 3] && tail[23] == message[n - 2] && tail[24] == message[n
            - 1]);
        assert(suffix[22] == 'a' && suffix[23] == 'l' && suffix[24] == 'l');
        assert(at == n - 4);
    }
    if is_error_message(message) {
        let suffix = "has no doc comment"@;
        let tail = message.subrange(n - 18, n);
        assert(tail == suffix);
        assert(tail[10] == message[n - 8] && tail[9] == message[n - 9]);
        assert(suffix[10] == ' ' && suffix[9] == 'c');
        assert forall|i: int| n - 7 <= i < n implies message[i] != ' ' by {
            assert(tail[i - n + 18] == message[i]);
            assert(suffix[11] != ' ' && suffix[12] != ' ' && suffix[13] != ' ' && suffix[14] != ' '
                && suffix[15] != ' ' && suffix[16] != ' ' && suffix[17] != ' ');
        }
        assert(at == n - 8);
    }
}

/// The end of a text decides what it ends with.
proof fn lemma_endings(message: Seq<char>)
    requires
        message.len() >= 2,
    ensures
        message.last() != 'l' || message[message.len() - 2] != 'l' ==> !is_undocumented_message(
            message,
        ),
        message.last() != 't' ==> !is_error_message(message),
{
    reveal_strlit("has no doc comment at all");
    reveal_strlit("has no doc comment");
    let n = message.len() as int;
    if is_undocumented_message(message) {
        let tail = message.subrange(n - 25, n);
        assert(tail == "has no doc comment at all"@);
        assert(tail[24] == message[n - 1] && tail[23] == message[n - 2]);
    }
    if is_error_message(message) {
        let tail = message.subrange(n - 18, n);
        assert(tail == "has no doc comment"@);
        assert(tail[17] == message[n - 1]);
    }
}

/// The words that every message of an event rule holds.
proof fn lemma_event_words()
    ensures
        " missing docs for "@.len() == 18,
        " missing docs for "@[0] == ' ',
        " missing docs for "@[1] == 'm',
        forall|k: int| 1 <= k < 8 ==> #[trigger] " missing docs for "@[k] != ' ',
        " missing docs for "@[8] == ' ',
        " missing docs for "@[9] == 'd',
        forall|k: int| 0 <= k < 18 ==> #[trigger] " missing docs for "@[k] != ':',
{
    reveal_strlit(" missing docs for ");
}

/// What stands where the event words begin.
proof fn lemma_at_event_words(text: Seq<char>, i: int)
    requires
        occurs_at(text, " missing docs for "@, i),
    ensures
        0 <= i,
        i + 18 <= text.len(),
        text[i] == ' ',
        text[i + 1] == 'm',
        forall|k: int| i < k < i + 8 ==> #[trigger] text[k] != ' ',
        text[i + 8] == ' ',
        text[i + 9] == 'd',
        forall|k: int| i <= k < i + 18 ==> #[trigger] text[k] != ':',
{
    lemma_event_words();
    let words = " missing docs for "@;
    let own = text.subrange(i, i + 18);
    assert(own == words);
    assert(own[0] == text[i] && own[1] == text[i + 1] && own[8] == text[i + 8] && own[9] == text[i
        + 9]);
    assert forall|k: int| i < k < i + 8 implies #[trigger] text[k] != ' ' by {
        assert(own[k - i] == text[k]);
    }
    assert forall|k: int| i <= k < i + 18 implies #[trigger] text[k] != ':' by {
        assert(own[k - i] == text[k]);
    }
}

/// The event words do not begin in front of a single word of `n` characters
/// that something else than `d` follows.
proof fn lemma_no_event_words_at(text: Seq<char>, p: int, n: int)
    requires
        0 <= p,
        0 <= n,
        p + n + 2 < text.len(),
        forall|k: int| p < k < p + 1 + n ==> #[trigger] text[k] != ' ',
        text[p + 1 + n] == ' ',
        text[p + 2 + n] != 'd',
    ensures
        !occurs_at(text, " missing docs for "@, p),
{
    if occurs_at(text, " missing docs for "@, p) {
        lemma_at_event_words(text, p);
        if n < 7 {
            assert(text[p + 1 + n] != ' ');
        } else if n > 7 {
            assert(text[p + 8] != ' ');
        }
    }
}

/// A message with a line number holds the event words only if its file or
/// what follows the number does.
proof fn lemma_event_words_in_message(file: Seq<char>, line: nat, rest: Seq<char>)
    requires
        !contains_text(file, " missing docs for "@),
        rest.len() > 0,
        rest[0] == ':',
        forall|j: int| 1 <= j ==> !#[trigger] occurs_at(rest, " missing docs for "@, j),
    ensures
        !contains_text(file + ":"@ + decimal(line) + rest, " missing docs for "@),
{
    reveal_strlit(":");
    lemma_event_words();
    lemma_decimal_digits(line);
    let words = " missing docs for "@;
    let number = decimal(line);
    let message = file + ":"@ + number + rest;
    let p = file.len() as int;
    let q = p + 1 + number.len();
    if contains_text(message, words) {
        let i = choose|i: int| occurs_at(message, words, i);
        lemma_at_event_words(message, i);
        assert(message[p] == ':' && message[q] == rest[0]);
        if i + 18 <= p {
            assert(file.subrange(i, i + 18) =~= message.subrange(i, i + 18));
            assert(occurs_at(file, words, i));
        } else if i <= p {
            assert(message[p] != ':');
        } else if i < q {
            assert(message[i] == number[i - p - 1]);
        } else if i == q {
            assert(message[i] == ':');
        } else {
            assert(rest.subrange(i - q, i - q + 18) =~= message.subrange(i, i + 18));
            assert(occurs_at(rest, words, i - q));
        }
    }
}

/// No word of a text begins with `m`.
spec fn has_no_m_word(text: Seq<char>) -> bool {
    forall|k: int| 0 <= k < text.len() - 1 && #[trigger] text[k] == ' ' ==> text[k + 1] != 'm'
}

proof fn lemma_undocumented_kind(file: Seq<char>, line: nat, name: Seq<char>)
    requires
        is_name(name),
    ensures
        is_undocumented_message(fn_undocumented_message(file, line, name)),
        !is_error_message(fn_undocumented_message(file, line, name)),
        !contains_text(file, " missing docs for "@) ==> !is_event_message(
            fn_undocumented_message(file, line, name),
        ),
{
    reveal_strlit(": fn ");
    reveal_strlit(" has no doc comment at all");
    reveal_strlit("has no doc comment at all");
    let literal = " has no doc comment at all"@;
    let message = fn_undocumented_message(file, line, name);
    let rest = ": fn "@ + name + literal;
    let n = message.len() as int;
    assert(message =~= file + ":"@ + decimal(line) + rest);
    assert(message.subrange(n - 25, n) =~= "has no doc comment at all"@);
    lemma_endings(message);
    if !contains_text(file, " missing docs for "@) {
        let end = 5 + name.len() as int;
        assert(has_no_m_word(literal));
        assert forall|j: int| 1 <= j implies !#[trigger] occurs_at(
            rest,
            " missing docs for "@,
            j,
        ) by {
            if occurs_at(rest, " missing docs for "@, j) {
                lemma_at_event_words(rest, j);
                if j == 4 {
                    assert forall|k: int| 4 < k < end implies #[trigger] rest[k] != ' ' by {
                        assert(rest[k] == name[k - 5]);
                    }
                    lemma_no_event_words_at(rest, 4, name.len() as int);
                } else if 5 <= j < end {
                    assert(rest[j] == name[j - 5]);
                } else if j >= end {
                    assert(rest[j] == literal[j - end] && rest[j + 1] == literal[j - end + 1]);
                }
            }
        }
        lemma_event_words_in_message(file, line, rest);
    }
}

proof fn lemma_error_kind(file: Seq<char>, line: nat, name: Seq<char>, variant: Seq<char>)
    requires
        is_name(name),
        is_name(variant),
    ensures
        is_error_message(error_variant_message(file, line, name, variant)),
        !is_undocumented_message(error_variant_message(file, line, name, variant)),
        !contains_text(file, " missing docs for "@) ==> !is_event_message(
            error_variant_message(file, line, name, variant),
        ),
{
    reveal_strlit(": error enum ");
    reveal_strlit(" variant ");
    reveal_strlit(" has no doc comment");
    reveal_strlit("has no doc comment");
    let literal = " has no doc comment"@;
    let message = error_variant_message(file, line, name, variant);
    let rest = ": error enum "@ + name + " variant "@ + variant + literal;
    let n = message.len() as int;
    assert(message =~= file + ":"@ + decimal(line) + rest);
    assert(message.subrange(n - 18, n) =~= "has no doc comment"@);
    lemma_endings(message);
    if !contains_text(file, " missing docs for "@) {
        let a = 13 + name.len() as int;
        let b = a + 9 + variant.len();
        assert(has_no_m_word(literal));
        assert forall|j: int| 1 <= j implies !#[trigger] occurs_at(
            rest,
            " missing docs for "@,
            j,
        ) by {
            if occurs_at(rest, " missing docs for "@, j) {
                lemma_at_event_words(rest, j);
                if j < 12 {
                    assert(rest[j] == ": error enum "@[j] && rest[j + 1] == ": error enum "@[j
                        + 1]);
                } else if j == 12 {
                    assert forall|k: int| 12 < k < a implies #[trigger] rest[k] != ' ' by {
                        assert(rest[k] == name[k - 13]);
                    }
                    lemma_no_event_words_at(rest, 12, name.len() as int);
                } else if j < a {
                    assert(rest[j] == name[j - 13]);
                } else if j < a + 8 {
                    assert(rest[j] == " variant "@[j - a] && rest[j + 1] == " variant "@[j - a
                        + 1]);
                } else if j == a + 8 {
                    assert forall|k: int| a + 8 < k < b implies #[trigger] rest[k] != ' ' by {
                        assert(rest[k] == variant[k - a - 9]);
                    }
                    lemma_no_event_words_at(rest, a + 8, variant.len() as int);
                } else if j < b {
                    assert(rest[j] == variant[j - a - 9]);
                } else {
                    assert(rest[j] == literal[j - b] && rest[j + 1] == literal[j - b + 1]);
                }
            }
        }
        lemma_event_words_in_message(file, line, rest);
    }
}

/// A text that ends with event words and a name speaks of an event and of
/// nothing else.
proof fn lemma_event_kind(front: Seq<char>, words: Seq<char>, name: Seq<char>)
    requires
        is_name(name),
        words == " missing docs for field "@ || words == " missing docs for unnamed field "@
            || words == " missing docs for variant "@,
    ensures
        is_event_message(front + words + name),
        !is_undocumented_message(front + words + name),
        !is_error_message(front + words + name),
{
    reveal_strlit(" missing docs for ");
    reveal_strlit(" missing docs for field ");
    reveal_strlit(" missing docs for unnamed field ");
    reveal_strlit(" missing docs for variant ");
    let message = front + words + name;
    let p = front.len() as int;
    let at = p + words.len() - 1;
    assert(message.subrange(p, p + 18) =~= " missing docs for "@);
    assert(occurs_at(message, " missing docs for "@, p));
    assert(message.subrange(at + 1, message.len() as int) =~= name);
    assert(message[at] == words[words.len() - 1]);
    assert(message[at - 1] == words[words.len() - 2] && message[at - 2] == words[words.len() - 3]);
    lemma_last_word(message, at, name);
}

/// What a list of missing sections looks like as a text.
spec fn is_section_text(text: Seq<char>) -> bool {
    &&& text.len() >= 2
    &&& text[0] != 'm' && text[0] != 'd' && text[0] != ' '
    &&& has_no_m_word(text)
    &&& text.last() != 't'
    &&& text.last() != 'l' || text[text.len() - 2] != 'l'
}

proof fn lemma_section_text(items: Seq<Seq<char>>)
    requires
        items.len() > 0,
        forall|i: int|
            0 <= i < items.len() ==> #[trigger] items[i] == "params"@ || items[i] == "return"@
                || items[i] == "access control"@,
    ensures
        is_section_text(join_text(items, ", "@)),
    decreases items.len(),
{
    reveal_strlit("params");
    reveal_strlit("return");
    reveal_strlit("access control");
    reveal_strlit(", ");
    let last = items.last();
    assert(items[items.len() - 1] == last);
    assert(is_section_text("params"@));
    assert(is_section_text("return"@));
    assert(is_section_text("access control"@));
    if items.len() > 1 {
        let front = items.drop_last();
        assert forall|i: int| 0 <= i < front.len() implies #[trigger] front[i] == "params"@
            || front[i] == "return"@ || front[i] == "access control"@ by {
            assert(front[i] == items[i]);
        }
        lemma_section_text(front);
        let before = join_text(front, ", "@);
        let text = before + ", "@ + last;
        let p = before.len() as int;
        assert forall|k: int| 0 <= k < text.len() - 1 && #[trigger] text[k] == ' ' implies text[k
            + 1] != 'm' by {
            if k < p - 1 {
                assert(before[k] == text[k] && before[k + 1] == text[k + 1]);
            } else if k == p - 1 {
                assert(text[k + 1] == ',');
            } else if k == p {
                assert(text[k] == ',');
            } else if k == p + 1 {
                assert(text[k + 1] == last[0]);
            } else {
                assert(last[k - p - 2] == text[k] && last[k - p - 1] == text[k + 1]);
            }
        }
        assert(text[0] == before[0]);
        assert(text.last() == last.last());
        assert(text[text.len() - 2] == last[last.len() - 2]);
    }
}

proof fn lemma_missing_kind(
    file: Seq<char>,
    line: nat,
    name: Seq<char>,
    doc: Seq<char>,
    takes_inputs: bool,
    returns_value: bool,
)
    requires
        is_name(name),
        sections_missing(doc, takes_inputs, returns_value).len() > 0,
    ensures
        ({
            let sections = join_text(
                sections_missing(doc, takes_inputs, returns_value),
                ", "@,
            );
            let message = fn_missing_message(file, line, name, sections);
            &&& !is_undocumented_message(message)
            &&& !is_error_message(message)
            &&& !contains_text(file, " missing docs for "@) ==> !is_event_message(message)
        }),
{
    reveal_strlit(": fn ");
    reveal_strlit(" missing ");
    let missing = sections_missing(doc, takes_inputs, returns_value);
    let sections = join_text(missing, ", "@);
    let message = fn_missing_message(file, line, name, sections);
    let rest = ": fn "@ + name + " missing "@ + sections;
    lemma_section_text(missing);
    assert(message =~= file + ":"@ + decimal(line) + rest);
    assert(message.last() == sections.last());
    assert(message[message.len() - 2] == sections[sections.len() - 2]);
    lemma_endings(message);
    if !contains_text(file, " missing docs for "@) {
        let a = 5 + name.len() as int;
        assert forall|j: int| 1 <= j implies !#[trigger] occurs_at(
            rest,
            " missing docs for "@,
            j,
        ) by {
            if occurs_at(rest, " missing docs for "@, j) {
                lemma_at_event_words(rest, j);
                if j < 4 {
                    assert(rest[j] == ": fn "@[j]);
                    assert(rest[j + 1] == ": fn "@[j + 1]);
                } else if j == 4 {
                    assert forall|k: int| 4 < k < a implies #[trigger] rest[k] != ' ' by {
                        assert(rest[k] == name[k - 5]);
                    }
                    lemma_no_event_words_at(rest, 4, name.len() as int);
                } else if j < a {
                    assert(rest[j] == name[j - 5]);
                } else if j == a {
                    assert(rest[a + 9] == sections[0]);
                } else if j < a + 8 {
                    assert(rest[j] == " missing "@[j - a]);
                } else if j == a + 8 {
                    assert(rest[j + 1] == sections[0]);
                } else {
                    assert(rest[j] == sections[j - a - 9] && rest[j + 1] == sections[j - a - 8]);
                }
            }
        }
        lemma_event_words_in_message(file, line, rest);
    }
}

// ---------------------------------------------------------------------------
// Severity
// ---------------------------------------------------------------------------

/// Exactly the findings on functions and error variants without a doc comment
/// take the severity of the newer rules; all others fail.
pub open spec fn has_severities(list: Seq<FindingView>, severity: Severity) -> bool {
    forall|i: int|
        0 <= i < list.len() ==> (#[trigger] list[i]).severity == if is_undocumented_message(
            list[i].message,
        ) || is_error_message(list[i].message) {
            severity
        } else {
            Severity::Fail
        }
}

/// Every finding is one of an event rule, and fails.
spec fn are_event_findings(list: Seq<FindingView>) -> bool {
    forall|i: int|
        0 <= i < list.len() ==> {
            let f = #[trigger] list[i];
            &&& f.severity == Severity::Fail
            &&& is_event_message(f.message)
            &&& !is_undocumented_message(f.message)
            &&& !is_error_message(f.message)
        }
}

proof fn lemma_named_field_findings(list: Seq<MemberView>, name: Seq<char>, file: Seq<char>)
    requires
        are_named_members(list),
    ensures
        are_event_findings(named_field_findings(list, name, file)),
    decreases list.len(),
{
    if list.len() > 0 {
        let field = list.last();
        assert(field.name == list[list.len() - 1].name);
        lemma_named_members_front(list);
        lemma_named_field_findings(list.drop_last(), name, file);
        lemma_event_kind(
            file + ":"@ + decimal(field.line) + ": struct "@ + name,
            " missing docs for field "@,
            field.name,
        );
    }
}

proof fn lemma_named_members_front(list: Seq<MemberView>)
    requires
        are_named_members(list),
        list.len() > 0,
    ensures
        are_named_members(list.drop_last()),
{
    let front = list.drop_last();
    assert forall|i: int| 0 <= i < front.len() implies is_name(#[trigger] front[i].name) by {
        assert(front[i].name == list[i].name);
    }
}

proof fn lemma_unnamed_field_findings(
    list: Seq<Seq<AttrView>>,
    name: Seq<char>,
    file: Seq<char>,
)
    ensures
        are_event_findings(unnamed_field_findings(list, name, file)),
    decreases list.len(),
{
    if list.len() > 0 {
        let index = decimal((list.len() - 1) as nat);
        lemma_unnamed_field_findings(list.drop_last(), name, file);
        lemma_decimal_digits((list.len() - 1) as nat);
        assert(is_name(index));
        lemma_event_kind(
            file + ": struct "@ + name,
            " missing docs for unnamed field "@,
            index,
        );
    }
}

proof fn lemma_event_variant_findings(list: Seq<MemberView>, name: Seq<char>, file: Seq<char>)
    requires
        are_named_members(list),
    ensures
        are_event_findings(event_variant_findings(list, name, file)),
    decreases list.len(),
{
    if list.len() > 0 {
        let variant = list.last();
        assert(variant.name == list[list.len() - 1].name);
        lemma_named_members_front(list);
        lemma_event_variant_findings(list.drop_last(), name, file);
        lemma_event_kind(
            file + ":"@ + decimal(variant.line) + ": enum "@ + name,
            " missing docs for variant "@,
            variant.name,
        );
    }
}

/// The findings on the fields of a struct are of an event rule.
proof fn lemma_field_findings(fields: FieldListView, name: Seq<char>, file: Seq<char>)
    requires
        fields is Named ==> are_named_members(fields->Named_0),
    ensures
        are_event_findings(field_findings(fields, name, file)),
{
    match fields {
        FieldListView::Named(list) => lemma_named_field_findings(list, name, file),
        FieldListView::Unnamed(list) => lemma_unnamed_field_findings(list, name, file),
        FieldListView::Unit => {},
    }
}

proof fn lemma_error_severities(
    list: Seq<MemberView>,
    name: Seq<char>,
    file: Seq<char>,
    severity: Severity,
)
    requires
        is_name(name),
        are_named_members(list),
    ensures
        has_severities(error_variant_findings(list, name, file, severity), severity),
    decreases list.len(),
{
    if list.len() > 0 {
        let variant = list.last();
        assert(variant.name == list[list.len() - 1].name);
        lemma_named_members_front(list);
        lemma_error_severities(list.drop_last(), name, file, severity);
        lemma_error_kind(file, variant.line, name, variant.name);
    }
}

proof fn lemma_fn_severities(func: FnView, file: Seq<char>, config: CheckConfig)
    requires
        is_name(func.name),
    ensures
        has_severities(fn_findings(func, file, config), config.new_check_severity),
{
    let doc = lowercase(doc_text(func.attrs));
    lemma_undocumented_kind(file, func.line, func.name);
    if sections_missing(doc, func.inputs > 0, func.returns_value).len() > 0 {
        lemma_missing_kind(
            file,
            func.line,
            func.name,
            doc,
            func.inputs > 0,
            func.returns_value,
        );
    }
}

proof fn lemma_impl_severities(
    members: Seq<Option<FnView>>,
    file: Seq<char>,
    config: CheckConfig,
)
    requires
        forall|i: int|
            0 <= i < members.len() && (#[trigger] members[i]) is Some ==> is_name(
                members[i]->0.name,
            ),
    ensures
        has_severities(impl_findings(members, file, config), config.new_check_severity),
    decreases members.len(),
{
    if members.len() > 0 {
        let front = members.drop_last();
        assert forall|i: int| 0 <= i < front.len() && (#[trigger] front[i]) is Some implies is_name(
            front[i]->0.name,
        ) by {
            assert(front[i] == members[i]);
        }
        lemma_impl_severities(front, file, config);
        assert(members[members.len() - 1] == members.last());
        if members.last() is Some {
            lemma_fn_severities(members.last()->0, file, config);
        }
    }
}

proof fn lemma_item_severities(item: ItemView, file: Seq<char>, config: CheckConfig)
    requires
        is_named(item),
    ensures
        has_severities(item_findings(item, file, config), config.new_check_severity),
{
    match item {
        ItemView::Impl { attrs, members } => lemma_impl_severities(members, file, config),
        ItemView::Struct { attrs, name, fields } => lemma_field_findings(fields, name, file),
        ItemView::Enum { attrs, name, variants } => {
            lemma_event_variant_findings(variants, name, file);
            lemma_error_severities(variants, name, file, config.new_check_severity);
        },
        ItemView::Other => {},
    }
}

/// In a whole file exactly the findings that end with "has no doc comment at
/// all" or "has no doc comment" take the severity of the newer rules. All
/// others, those of the section rules and the event rules, fail.
pub proof fn law_only_missing_doc_comments_warn(
    items: Seq<ItemView>,
    file: Seq<char>,
    config: CheckConfig,
)
    requires
        are_named(items),
    ensures
        has_severities(items_findings(items, file, config), config.new_check_severity),
    decreases items.len(),
{
    if items.len() > 0 {
        let front = items.drop_last();
        lemma_named_front(items);
        law_only_missing_doc_comments_warn(front, file, config);
        lemma_item_severities(items.last(), file, config);
    }
}

proof fn lemma_named_front(items: Seq<ItemView>)
    requires
        are_named(items),
        items.len() > 0,
    ensures
        are_named(items.drop_last()),
        is_named(items.last()),
{
    let front = items.drop_last();
    assert(items[items.len() - 1] == items.last());
    assert forall|i: int| 0 <= i < front.len() implies is_named(#[trigger] front[i]) by {
        assert(front[i] == items[i]);
    }
}

// ---------------------------------------------------------------------------
// Flags
// ---------------------------------------------------------------------------

/// All the rules on sources are on.
pub open spec fn is_complete(config: CheckConfig) -> bool {
    config.check_events && config.check_undocumented_fns && config.check_error_enums
}

/// A message that is left when the rules that `flags` turns off are gone.
pub open spec fn is_left(message: Seq<char>, flags: CheckConfig) -> bool {
    &&& flags.check_events || !is_event_message(message)
    &&& flags.check_undocumented_fns || !is_undocumented_message(message)
    &&& flags.check_error_enums || !is_error_message(message)
}

/// The findings that are left, unchanged and in their order.
pub open spec fn left(list: Seq<FindingView>, flags: CheckConfig) -> Seq<FindingView>
    decreases list.len(),
{
    if list.len() == 0 {
        seq![]
    } else {
        let before = left(list.drop_last(), flags);
        if is_left(list.last().message, flags) {
            before.push(list.last())
        } else {
            before
        }
    }
}

/// What is left of two lists one behind the other.
proof fn lemma_left_add(a: Seq<FindingView>, b: Seq<FindingView>, flags: CheckConfig)
    ensures
        left(a + b, flags) == left(a, flags) + left(b, flags),
    decreases b.len(),
{
    if b.len() == 0 {
        assert(a + b =~= a);
        assert(left(a, flags) + left(b, flags) =~= left(a, flags));
    } else {
        let front = b.drop_last();
        lemma_left_add(a, front, flags);
        assert((a + b).drop_last() =~= a + front);
        assert((a + b).last() == b.last());
        assert(left(a + b, flags) =~= left(a, flags) + left(b, flags));
    }
}

/// What is left of one finding.
proof fn lemma_left_one(finding: FindingView, flags: CheckConfig)
    ensures
        left(seq![finding], flags) == if is_left(finding.message, flags) {
            seq![finding]
        } else {
            Seq::<FindingView>::empty()
        },
{
    let list = seq![finding];
    assert(list.drop_last() =~= Seq::empty());
    assert(left(list.drop_last(), flags) =~= Seq::empty());
    assert(Seq::<FindingView>::empty().push(finding) =~= list);
}

/// Event findings are left exactly if the event rules are on.
proof fn lemma_left_events(list: Seq<FindingView>, flags: CheckConfig)
    requires
        are_event_findings(list),
    ensures
        left(list, flags) == if flags.check_events {
            list
        } else {
            Seq::<FindingView>::empty()
        },
    decreases list.len(),
{
    if list.len() > 0 {
        let front = list.drop_last();
        assert forall|i: int| 0 <= i < front.len() implies {
            let f = #[trigger] front[i];
            &&& f.severity == Severity::Fail
            &&& is_event_message(f.message)
            &&& !is_undocumented_message(f.message)
            &&& !is_error_message(f.message)
        } by {
            assert(front[i] == list[i]);
        }
        lemma_left_events(front, flags);
        assert(list[list.len() - 1] == list.last());
        assert(list =~= front.push(list.last()));
    }
}

proof fn lemma_left_errors(
    list: Seq<MemberView>,
    name: Seq<char>,
    file: Seq<char>,
    severity: Severity,
    flags: CheckConfig,
)
    requires
        is_name(name),
        are_named_members(list),
        !is_event_message(file),
    ensures
        left(error_variant_findings(list, name, file, severity), flags)
            == if flags.check_error_enums {
            error_variant_findings(list, name, file, severity)
        } else {
            Seq::<FindingView>::empty()
        },
    decreases list.len(),
{
    if list.len() > 0 {
        let variant = list.last();
        let findings = error_variant_findings(list, name, file, severity);
        let before = error_variant_findings(list.drop_last(), name, file, severity);
        assert(variant.name == list[list.len() - 1].name);
        lemma_named_members_front(list);
        lemma_left_errors(list.drop_last(), name, file, severity, flags);
        lemma_error_kind(file, variant.line, name, variant.name);
        if findings != before {
            assert(findings.drop_last() =~= before);
        }
    }
}

proof fn lemma_left_fn(func: FnView, file: Seq<char>, config: CheckConfig, fewer: CheckConfig)
    requires
        is_name(func.name),
        !is_event_message(file),
        config.check_undocumented_fns,
        fewer.new_check_severity == config.new_check_severity,
    ensures
        left(fn_findings(func, file, config), fewer) == fn_findings(func, file, fewer),
{
    let doc = lowercase(doc_text(func.attrs));
    let all = fn_findings(func, file, config);
    lemma_undocumented_kind(file, func.line, func.name);
    if sections_missing(doc, func.inputs > 0, func.returns_value).len() > 0 {
        lemma_missing_kind(
            file,
            func.line,
            func.name,
            doc,
            func.inputs > 0,
            func.returns_value,
        );
    }
    if all.len() > 0 {
        lemma_left_one(all[0], fewer);
        assert(all =~= seq![all[0]]);
    }
    assert(left(all, fewer) =~= fn_findings(func, file, fewer));
}

proof fn lemma_left_impl(
    members: Seq<Option<FnView>>,
    file: Seq<char>,
    config: CheckConfig,
    fewer: CheckConfig,
)
    requires
        forall|i: int|
            0 <= i < members.len() && (#[trigger] members[i]) is Some ==> is_name(
                members[i]->0.name,
            ),
        !is_event_message(file),
        config.check_undocumented_fns,
        fewer.new_check_severity == config.new_check_severity,
    ensures
        left(impl_findings(members, file, config), fewer) == impl_findings(members, file, fewer),
    decreases members.len(),
{
    if members.len() > 0 {
        let front = members.drop_last();
        assert forall|i: int| 0 <= i < front.len() && (#[trigger] front[i]) is Some implies is_name(
            front[i]->0.name,
        ) by {
            assert(front[i] == members[i]);
        }
        lemma_left_impl(front, file, config, fewer);
        assert(members[members.len() - 1] == members.last());
        if members.last() is Some {
            let func = members.last()->0;
            lemma_left_fn(func, file, config, fewer);
            lemma_left_add(
                impl_findings(front, file, config),
                fn_findings(func, file, config),
                fewer,
            );
        }
    }
}

proof fn lemma_left_item(
    item: ItemView,
    file: Seq<char>,
    config: CheckConfig,
    fewer: CheckConfig,
)
    requires
        is_named(item),
        !is_event_message(file),
        is_complete(config),
        fewer.new_check_severity == config.new_check_severity,
    ensures
        left(item_findings(item, file, config), fewer) == item_findings(item, file, fewer),
{
    match item {
        ItemView::Impl { attrs, members } => lemma_left_impl(members, file, config, fewer),
        ItemView::Struct { attrs, name, fields } => {
            lemma_field_findings(fields, name, file);
            lemma_left_events(field_findings(fields, name, file), fewer);
        },
        ItemView::Enum { attrs, name, variants } => {
            let nothing = Seq::<FindingView>::empty();
            let events = if has_path(attrs, "contracttype"@)
                && is_event_name(name) {
                event_variant_findings(variants, name, file)
            } else {
                nothing
            };
            let errors = if has_path(attrs, "contracterror"@) {
                error_variant_findings(variants, name, file, config.new_check_severity)
            } else {
                nothing
            };
            lemma_event_variant_findings(variants, name, file);
            lemma_left_events(events, fewer);
            lemma_left_errors(variants, name, file, config.new_check_severity, fewer);
            lemma_left_add(events, errors, fewer);
            assert(left(nothing, fewer) =~= nothing);
            assert(item_findings(item, file, config) =~= events + errors);
            assert(item_findings(item, file, fewer) =~= left(events, fewer) + left(errors, fewer));
        },
        ItemView::Other => {},
    }
}

/// Turning rules off takes exactly their messages out of the findings on a
/// whole file, and leaves the others as they are and in their order. The
/// rules on documents make no difference here. The name of the file itself
/// does not hold the words by which event messages are told.
pub proof fn law_flags_remove_their_messages(
    items: Seq<ItemView>,
    file: Seq<char>,
    config: CheckConfig,
    fewer: CheckConfig,
)
    requires
        are_named(items),
        !contains_text(file, " missing docs for "@),
        is_complete(config),
        fewer.new_check_severity == config.new_check_severity,
    ensures
        items_findings(items, file, fewer) == left(items_findings(items, file, config), fewer),
    decreases items.len(),
{
    if items.len() > 0 {
        let front = items.drop_last();
        lemma_named_front(items);
        law_flags_remove_their_messages(front, file, config, fewer);
        lemma_left_item(items.last(), file, config, fewer);
        lemma_left_add(
            items_findings(front, file, config),
            item_findings(items.last(), file, config),
            fewer,
        );
    }
}

proof fn lemma_same_impl_rules(
    members: Seq<Option<FnView>>,
    file: Seq<char>,
    config: CheckConfig,
    other: CheckConfig,
)
    requires
        config.check_undocumented_fns == other.check_undocumented_fns,
        config.new_check_severity == other.new_check_severity,
    ensures
        impl_findings(members, file, config) == impl_findings(members, file, other),
    decreases members.len(),
{
    if members.len() > 0 {
        lemma_same_impl_rules(members.drop_last(), file, config, other);
    }
}

/// The rules on documents, on or off, change nothing in what is reported of
/// a source file.
pub proof fn law_document_rules_leave_sources_alone(
    items: Seq<ItemView>,
    file: Seq<char>,
    config: CheckConfig,
    other: CheckConfig,
)
    requires
        config.check_events == other.check_events,
        config.check_undocumented_fns == other.check_undocumented_fns,
        config.check_error_enums == other.check_error_enums,
        config.new_check_severity == other.new_check_severity,
    ensures
        items_findings(items, file, config) == items_findings(items, file, other),
    decreases items.len(),
{
    if items.len() > 0 {
        law_document_rules_leave_sources_alone(items.drop_last(), file, config, other);
        match items.last() {
            ItemView::Impl { attrs, members } => lemma_same_impl_rules(
                members,
                file,
                config,
                other,
            ),
            _ => {},
        }
    }
}

} // verus!
