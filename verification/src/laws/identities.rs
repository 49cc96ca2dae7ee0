//! Which messages have an identity, and what it says.

use crate::identity::{identity, identity_text, normalize_file, rule_pieces, strip_parents, Rule};
use crate::patterns::{
    covers, is_digit, is_snake_char, is_snake_start, is_word_char, lemma_cuts_ascend, matches_whole,
    part, piece_matches, run_char, run_matches, Piece, Run,
};
use crate::recognition::{
    is_file, is_ordinary, is_word, law_identity_of_missing_sections,
    law_ordinary_messages_are_recognized, law_unknown_messages_have_no_identity,
};
use crate::references::{is_snake_case, quoted};
use crate::shape::{are_digits, lemma_shape};
use crate::text::{contains_text, decimal, occurs_at, replace_char, starts_with};
use vstd::prelude::*;

verus! {

// ---------------------------------------------------------------------------
// What an identity says
// ---------------------------------------------------------------------------

/// The name of a file as messages hold it: not empty, on one line, and
/// without a colon that a space follows.
pub open spec fn is_file_part(file: Seq<char>) -> bool {
    &&& file.len() > 0
    &&& forall|i: int| 0 <= i < file.len() ==> #[trigger] file[i] != '\n'
    &&& forall|i: int|
        0 <= i < file.len() - 1 ==> !(#[trigger] file[i] == ':' && file[i + 1] == ' ')
}

/// One or more word characters.
pub open spec fn is_item_name(name: Seq<char>) -> bool {
    name.len() > 0 && forall|i: int| 0 <= i < name.len() ==> is_word_char(#[trigger] name[i])
}

/// One or more of the ten digits.
pub open spec fn is_line_number(number: Seq<char>) -> bool {
    number.len() > 0 && forall|i: int| 0 <= i < number.len() ==> '0' <= #[trigger] number[i] <= '9'
}

/// The identity of a message names the file in its normal form, the rule and
/// the item, with bars in between, and nothing else of the message.
pub proof fn law_identities_name_file_rule_and_item(
    file: Seq<char>,
    number: Seq<char>,
    index: nat,
    name: Seq<char>,
    member: Seq<char>,
    sections: Seq<char>,
)
    requires
        is_file_part(file),
        is_line_number(number),
        is_item_name(name),
        is_item_name(member),
        sections.len() > 0,
        forall|i: int|
            0 <= i < sections.len() ==> #[trigger] sections[i] != ':' && sections[i] != '\n',
    ensures
        identity(file + ":"@ + number + ": fn "@ + name + " missing "@ + sections) == Some(
            normalize_file(file) + "|fn-missing-sections|"@ + name,
        ),
        identity(file + ":"@ + number + ": fn "@ + name + " has no doc comment at all"@) == Some(
            normalize_file(file) + "|fn-undocumented|"@ + name,
        ),
        identity(file + ":"@ + number + ": struct "@ + name + " missing docs for field "@ + member)
            == Some(normalize_file(file) + "|event-field|"@ + name + "::"@ + member),
        identity(file + ": struct "@ + name + " missing docs for unnamed field "@ + decimal(index))
            == Some(
            normalize_file(file) + "|event-unnamed-field|"@ + name + "::"@ + decimal(index),
        ),
        identity(file + ":"@ + number + ": enum "@ + name + " missing docs for variant "@ + member)
            == Some(normalize_file(file) + "|event-variant|"@ + name + "::"@ + member),
        identity(
            file + ":"@ + number + ": error enum "@ + name + " variant "@ + member
                + " has no doc comment"@,
        ) == Some(normalize_file(file) + "|error-variant|"@ + name + "::"@ + member),
        identity(file + ": orphaned doc - not reachable from README.md or any docs index file"@)
            == Some(normalize_file(file) + "|orphaned-doc|"@ + normalize_file(file)),
        identity(
            file + ":"@ + number + ": stale doc reference to `"@ + name
                + "` – no matching pub fn found in contracts"@,
        ) == Some(normalize_file(file) + "|stale-ref|"@ + name),
{
    lemma_file_part(file);
    lemma_item_name(name);
    lemma_item_name(member);
    assert(are_digits(number));
    assert forall|i: int| 0 <= i < sections.len() implies run_char(
        Run::AnyPlus,
        #[trigger] sections[i],
    ) by {}
    law_identity_of_missing_sections(file, number, name, sections);
    law_ordinary_messages_are_recognized(file, number, index, name, member);
    lemma_keys();
    let nothing = Seq::<char>::empty();
    let form = normalize_file(file);
    let numeral = decimal(index);
    assert(identity_text(Rule::FnMissingSections, file, name, nothing) =~= form
        + "|fn-missing-sections|"@ + name);
    assert(identity_text(Rule::FnUndocumented, file, name, nothing) =~= form + "|fn-undocumented|"@
        + name);
    assert(identity_text(Rule::EventField, file, name, member) =~= form + "|event-field|"@ + name
        + "::"@ + member);
    assert(identity_text(Rule::EventUnnamedField, file, name, numeral) =~= form
        + "|event-unnamed-field|"@ + name + "::"@ + numeral);
    assert(identity_text(Rule::EventVariant, file, name, member) =~= form + "|event-variant|"@ + name
        + "::"@ + member);
    assert(identity_text(Rule::ErrorVariant, file, name, member) =~= form + "|error-variant|"@ + name
        + "::"@ + member);
    assert(identity_text(Rule::OrphanedDoc, file, nothing, nothing) =~= form + "|orphaned-doc|"@
        + form);
    assert(identity_text(Rule::StaleRef, file, name, nothing) =~= form + "|stale-ref|"@ + name);
}

/// The rules between bars.
proof fn lemma_keys()
    ensures
        "|fn-missing-sections|"@ == "|"@ + "fn-missing-sections"@ + "|"@,
        "|fn-undocumented|"@ == "|"@ + "fn-undocumented"@ + "|"@,
        "|event-field|"@ == "|"@ + "event-field"@ + "|"@,
        "|event-unnamed-field|"@ == "|"@ + "event-unnamed-field"@ + "|"@,
        "|event-variant|"@ == "|"@ + "event-variant"@ + "|"@,
        "|error-variant|"@ == "|"@ + "error-variant"@ + "|"@,
        "|orphaned-doc|"@ == "|"@ + "orphaned-doc"@ + "|"@,
        "|stale-ref|"@ == "|"@ + "stale-ref"@ + "|"@,
{
    reveal_strlit("|");
    reveal_strlit("|fn-missing-sections|");
    reveal_strlit("fn-missing-sections");
    reveal_strlit("|fn-undocumented|");
    reveal_strlit("fn-undocumented");
    reveal_strlit("|event-field|");
    reveal_strlit("event-field");
    reveal_strlit("|event-unnamed-field|");
    reveal_strlit("event-unnamed-field");
    reveal_strlit("|event-variant|");
    reveal_strlit("event-variant");
    reveal_strlit("|error-variant|");
    reveal_strlit("error-variant");
    reveal_strlit("|orphaned-doc|");
    reveal_strlit("orphaned-doc");
    reveal_strlit("|stale-ref|");
    reveal_strlit("stale-ref");
    assert("|fn-missing-sections|"@ =~= "|"@ + "fn-missing-sections"@ + "|"@);
    assert("|fn-undocumented|"@ =~= "|"@ + "fn-undocumented"@ + "|"@);
    assert("|event-field|"@ =~= "|"@ + "event-field"@ + "|"@);
    assert("|event-unnamed-field|"@ =~= "|"@ + "event-unnamed-field"@ + "|"@);
    assert("|event-variant|"@ =~= "|"@ + "event-variant"@ + "|"@);
    assert("|error-variant|"@ =~= "|"@ + "error-variant"@ + "|"@);
    assert("|orphaned-doc|"@ =~= "|"@ + "orphaned-doc"@ + "|"@);
    assert("|stale-ref|"@ =~= "|"@ + "stale-ref"@ + "|"@);
}

proof fn lemma_file_part(file: Seq<char>)
    requires
        is_file_part(file),
    ensures
        is_ordinary(file),
{
    assert forall|i: int| 0 <= i < file.len() implies run_char(
        Run::AnyPlus,
        #[trigger] file[i],
    ) by {}
    assert(is_file(file));
}

proof fn lemma_item_name(name: Seq<char>)
    requires
        is_item_name(name),
    ensures
        is_word(name),
{
    assert forall|i: int| 0 <= i < name.len() implies run_char(Run::Word, #[trigger] name[i]) by {}
}

/// A path with forward slashes and without `../` in front is in its normal
/// form. Backslashes become slashes, and `../` in front is taken off.
pub proof fn law_the_normal_form_of_a_path(path: Seq<char>, raw: Seq<char>)
    ensures
        !path.contains('\\') && !(path.len() >= 3 && path[0] == '.' && path[1] == '.' && path[2]
            == '/') ==> normalize_file(path) == path,
        normalize_file(raw) == normalize_file(replace_char(raw, '\\', '/')),
        normalize_file(seq!['.', '.', '/'] + raw) == normalize_file(raw),
        normalize_file(seq!['.', '.', '\\'] + raw) == normalize_file(raw),
{
    reveal_strlit("../");
    assert("../"@ =~= seq!['.', '.', '/']);
    if !path.contains('\\') {
        assert(replace_char(path, '\\', '/') =~= path) by {
            assert forall|i: int| 0 <= i < path.len() implies path[i] != '\\' by {
                assert(path.contains(path[i]));
            }
        }
        if starts_with(path, "../"@) {
            let own = path.subrange(0, 3);
            assert(own[0] == path[0] && own[1] == path[1] && own[2] == path[2]);
        }
    }
    let slashed = replace_char(raw, '\\', '/');
    assert(replace_char(slashed, '\\', '/') =~= slashed);
    let up = seq!['.', '.', '/'] + slashed;
    assert(replace_char(seq!['.', '.', '/'] + raw, '\\', '/') =~= up);
    assert(replace_char(seq!['.', '.', '\\'] + raw, '\\', '/') =~= up);
    assert(up.subrange(0, 3) =~= "../"@);
    assert(up.subrange(3, up.len() as int) =~= slashed);
    assert(strip_parents(up) == strip_parents(slashed));
}

// ---------------------------------------------------------------------------
// What has none
// ---------------------------------------------------------------------------

/// The words of one of the known kinds of message stand in the text.
pub open spec fn has_known_words(message: Seq<char>) -> bool {
    ||| contains_text(message, ": fn "@) && contains_text(message, " missing "@)
    ||| contains_text(message, ": fn "@) && contains_text(message, " has no doc comment at all"@)
    ||| contains_text(message, ": struct "@) && contains_text(message, " missing docs for field "@)
    ||| contains_text(message, ": struct "@) && contains_text(
        message,
        " missing docs for unnamed field "@,
    )
    ||| contains_text(message, ": enum "@) && contains_text(message, " missing docs for variant "@)
    ||| contains_text(message, ": error enum "@) && contains_text(message, " variant "@)
        && contains_text(message, " has no doc comment"@)
    ||| contains_text(message, ": orphaned doc - "@)
    ||| contains_text(message, ": stale doc reference to `"@)
}

/// A message of no known kind has no identity, and so never enters a
/// baseline: without the words of one of the kinds, without a name for its
/// file, or on more than one line.
pub proof fn law_messages_of_no_known_kind_have_no_identity(message: Seq<char>)
    ensures
        !has_known_words(message) ==> identity(message) is None,
        message.contains('\n') ==> identity(message) is None,
        message.len() == 0 || message[0] == '\n' ==> identity(message) is None,
{
    if identity(message) is Some {
        law_unknown_messages_have_no_identity(message);
        let rule = choose|rule: Rule| #[trigger] matches_whole(rule_pieces(rule), message);
        let cuts = choose|cuts: Seq<int>| covers(rule_pieces(rule), message, cuts);
        lemma_words(rule, message, cuts);
        if message.contains('\n') {
            let k = choose|k: int| 0 <= k < message.len() && message[k] == '\n';
            lemma_one_line(rule, message, cuts, 0, k);
        }
        let pieces = rule_pieces(rule);
        lemma_shape(rule);
        assert(piece_matches(pieces[0], part(message, cuts, 0)));
        lemma_cuts_ascend(pieces, message, cuts, 0, 1);
        assert(part(message, cuts, 0)[0] == message[0]);
    }
}

/// The literal pieces of a match stand in the message.
proof fn lemma_literal_stands(rule: Rule, message: Seq<char>, cuts: Seq<int>, i: int)
    requires
        covers(rule_pieces(rule), message, cuts),
        0 <= i < rule_pieces(rule).len(),
        rule_pieces(rule)[i] is Literal,
    ensures
        contains_text(message, rule_pieces(rule)[i]->Literal_0),
{
    let pieces = rule_pieces(rule);
    let text = pieces[i]->Literal_0;
    assert(piece_matches(pieces[i], part(message, cuts, i)));
    lemma_cuts_ascend(pieces, message, cuts, i, i + 1);
    assert(cuts[i + 1] == cuts[i] + text.len());
    assert(occurs_at(message, text, cuts[i]));
}

proof fn lemma_words(rule: Rule, message: Seq<char>, cuts: Seq<int>)
    requires
        covers(rule_pieces(rule), message, cuts),
    ensures
        has_known_words(message),
{
    match rule {
        Rule::EventUnnamedField => {
            lemma_literal_stands(rule, message, cuts, 1);
            lemma_literal_stands(rule, message, cuts, 3);
        },
        Rule::OrphanedDoc => {
            lemma_literal_stands(rule, message, cuts, 1);
        },
        Rule::StaleRef => {
            lemma_literal_stands(rule, message, cuts, 3);
        },
        Rule::ErrorVariant => {
            lemma_literal_stands(rule, message, cuts, 3);
            lemma_literal_stands(rule, message, cuts, 5);
            lemma_literal_stands(rule, message, cuts, 7);
        },
        _ => {
            lemma_literal_stands(rule, message, cuts, 3);
            lemma_literal_stands(rule, message, cuts, 5);
        },
    }
}

/// No piece of a match holds a line feed.
proof fn lemma_one_line(rule: Rule, message: Seq<char>, cuts: Seq<int>, i: int, k: int)
    requires
        covers(rule_pieces(rule), message, cuts),
        0 <= i <= rule_pieces(rule).len(),
        cuts[i] <= k < message.len(),
        0 <= k,
    ensures
        message[k] != '\n',
    decreases rule_pieces(rule).len() - i,
{
    let pieces = rule_pieces(rule);
    if i < pieces.len() {
        let own = part(message, cuts, i);
        assert(piece_matches(pieces[i], own));
        if k < cuts[i + 1] {
            assert(own[k - cuts[i]] == message[k]);
            lemma_piece_is_one_line(rule, i, own, k - cuts[i]);
        } else {
            lemma_one_line(rule, message, cuts, i + 1, k);
        }
    }
}

proof fn lemma_piece_is_one_line(rule: Rule, i: int, own: Seq<char>, k: int)
    requires
        0 <= i < rule_pieces(rule).len(),
        piece_matches(rule_pieces(rule)[i], own),
        0 <= k < own.len(),
    ensures
        own[k] != '\n',
{
    let pieces = rule_pieces(rule);
    match pieces[i] {
        Piece::Literal(text) => {
            lemma_literals_are_one_line(rule, i, k);
        },
        Piece::Plain(run) => {
            assert(run is AnyPlus || run is AnyStar);
            assert(run_matches(run, own));
            assert(run_char(run, own[k]));
        },
        Piece::Group(_, run) => {
            assert(run is AnyPlus || run is Digits || run is Word);
            assert(run_matches(run, own));
            assert(run_char(run, own[k]));
        },
    }
}

proof fn lemma_literals_are_one_line(rule: Rule, i: int, k: int)
    requires
        0 <= i < rule_pieces(rule).len(),
        rule_pieces(rule)[i] is Literal,
        0 <= k < rule_pieces(rule)[i]->Literal_0.len(),
    ensures
        rule_pieces(rule)[i]->Literal_0[k] != '\n',
{
    reveal_strlit(":");
    match rule {
        Rule::FnMissingSections => {
            reveal_strlit(": fn ");
            reveal_strlit(" missing ");
        },
        Rule::FnUndocumented => {
            reveal_strlit(": fn ");
            reveal_strlit(" has no doc comment at all");
        },
        Rule::EventField => {
            reveal_strlit(": struct ");
            reveal_strlit(" missing docs for field ");
        },
        Rule::EventUnnamedField => {
            reveal_strlit(": struct ");
            reveal_strlit(" missing docs for unnamed field ");
        },
        Rule::EventVariant => {
            reveal_strlit(": enum ");
            reveal_strlit(" missing docs for variant ");
        },
        Rule::ErrorVariant => {
            reveal_strlit(": error enum ");
            reveal_strlit(" variant ");
            reveal_strlit(" has no doc comment");
        },
        Rule::OrphanedDoc => {
            reveal_strlit(": orphaned doc - ");
        },
        Rule::StaleRef => {
            reveal_strlit(": stale doc reference to `");
            reveal_strlit("` ");
        },
    }
}

/// Some text on one line, and not empty.
pub open spec fn is_some_text(s: Seq<char>) -> bool {
    s.len() > 0 && !s.contains('\n')
}

/// One or more digits, of whatever script.
pub open spec fn is_some_number(s: Seq<char>) -> bool {
    s.len() > 0 && forall|i: int| 0 <= i < s.len() ==> is_digit(#[trigger] s[i])
}

/// The parts of a message: what stands where its file, its line, its two
/// items and the rest of its text do.
pub struct MessageParts {
    pub file: Seq<char>,
    pub line: Seq<char>,
    pub item: Seq<char>,
    pub member: Seq<char>,
    pub rest: Seq<char>,
}

/// The message of one of the known kinds with these parts.
pub open spec fn is_built_from(message: Seq<char>, p: MessageParts) -> bool {
    let place = p.file + ":"@ + p.line;
    let lined = is_some_text(p.file) && is_some_number(p.line) && is_item_name(p.item);
    ||| lined && is_some_text(p.rest) && message == place + ": fn "@ + p.item + " missing "@
        + p.rest
    ||| lined && message == place + ": fn "@ + p.item + " has no doc comment at all"@
    ||| lined && is_item_name(p.member) && message == place + ": struct "@ + p.item
        + " missing docs for field "@ + p.member
    ||| is_some_text(p.file) && is_item_name(p.item) && is_some_number(p.member) && message
        == p.file + ": struct "@ + p.item + " missing docs for unnamed field "@ + p.member
    ||| lined && is_item_name(p.member) && message == place + ": enum "@ + p.item
        + " missing docs for variant "@ + p.member
    ||| lined && is_item_name(p.member) && message == place + ": error enum "@ + p.item
        + " variant "@ + p.member + " has no doc comment"@
    ||| is_some_text(p.file) && !p.rest.contains('\n') && message == p.file
        + ": orphaned doc - "@ + p.rest
    ||| lined && !p.rest.contains('\n') && message == place + ": stale doc reference to `"@ + p.item
        + "` "@ + p.rest
}

/// Only messages that are built like those of the known kinds have an
/// identity.
pub proof fn law_only_known_forms_have_an_identity(message: Seq<char>)
    requires
        identity(message) is Some,
    ensures
        exists|p: MessageParts| #[trigger] is_built_from(message, p),
{
    law_unknown_messages_have_no_identity(message);
    let rule = choose|rule: Rule| #[trigger] matches_whole(rule_pieces(rule), message);
    let cuts = choose|cuts: Seq<int>| covers(rule_pieces(rule), message, cuts);
    let pieces = rule_pieces(rule);
    let n = pieces.len() as int;
    lemma_shape(rule);
    assert forall|i: int| 0 <= i < n implies #[trigger] cuts[i] <= cuts[i + 1] <= message.len()
        && 0 <= cuts[i] && piece_matches(pieces[i], part(message, cuts, i)) by {
        assert(piece_matches(pieces[i], part(message, cuts, i)));
    }
    let none = Seq::<char>::empty();
    assert(!none.contains('\n'));
    let at = |i: int| part(message, cuts, i);
    lemma_run_of_text(pieces[0], at(0));
    match rule {
        Rule::OrphanedDoc => {
            lemma_three_parts(message, cuts);
            lemma_rest_of_text(pieces[2], at(2));
            let p = MessageParts {
                file: at(0),
                line: none,
                item: none,
                member: none,
                rest: at(2),
            };
            assert(piece_matches(pieces[1], at(1)));
            assert(is_built_from(message, p));
        },
        Rule::EventUnnamedField => {
            lemma_five_parts(message, cuts);
            lemma_run_of_word(pieces[2], at(2));
            lemma_run_of_digits(pieces[4], at(4));
            let p = MessageParts {
                file: at(0),
                line: none,
                item: at(2),
                member: at(4),
                rest: none,
            };
            assert(piece_matches(pieces[1], at(1)) && piece_matches(pieces[3], at(3)));
            assert(is_built_from(message, p));
        },
        _ => {
            lemma_run_of_digits(pieces[2], at(2));
            lemma_run_of_word(pieces[4], at(4));
            assert(piece_matches(pieces[1], at(1)) && piece_matches(pieces[3], at(3)));
            assert(piece_matches(pieces[5], at(5)));
            lemma_lined_form(rule, message, cuts);
        },
    }
}

/// A match of a rule with a line number is built from its parts.
proof fn lemma_lined_form(rule: Rule, message: Seq<char>, cuts: Seq<int>)
    requires
        covers(rule_pieces(rule), message, cuts),
        rule != Rule::OrphanedDoc,
        rule != Rule::EventUnnamedField,
        is_some_text(part(message, cuts, 0)),
        is_some_number(part(message, cuts, 2)),
        is_item_name(part(message, cuts, 4)),
        part(message, cuts, 1) == ":"@,
    ensures
        exists|p: MessageParts| #[trigger] is_built_from(message, p),
{
    let pieces = rule_pieces(rule);
    let none = Seq::<char>::empty();
    assert forall|i: int| 0 <= i < pieces.len() implies #[trigger] cuts[i] <= cuts[i + 1]
        <= message.len() && 0 <= cuts[i] by {
        assert(piece_matches(pieces[i], part(message, cuts, i)));
    }
    let file = part(message, cuts, 0);
    let line = part(message, cuts, 2);
    let item = part(message, cuts, 4);
    assert(piece_matches(pieces[3], part(message, cuts, 3)));
    assert(piece_matches(pieces[5], part(message, cuts, 5)));
    match rule {
        Rule::FnUndocumented => {
            lemma_six_parts(message, cuts);
            let p = MessageParts { file, line, item, member: none, rest: none };
            assert(is_built_from(message, p));
        },
        Rule::ErrorVariant => {
            lemma_eight_parts(message, cuts);
            lemma_run_of_word(pieces[6], part(message, cuts, 6));
            assert(piece_matches(pieces[7], part(message, cuts, 7)));
            let p = MessageParts { file, line, item, member: part(message, cuts, 6), rest: none };
            assert(is_built_from(message, p));
        },
        Rule::EventField | Rule::EventVariant => {
            lemma_seven_parts(message, cuts);
            lemma_run_of_word(pieces[6], part(message, cuts, 6));
            let p = MessageParts { file, line, item, member: part(message, cuts, 6), rest: none };
            assert(is_built_from(message, p));
        },
        _ => {
            lemma_seven_parts(message, cuts);
            if rule == Rule::FnMissingSections {
                lemma_run_of_text(pieces[6], part(message, cuts, 6));
            } else {
                lemma_rest_of_text(pieces[6], part(message, cuts, 6));
            }
            let p = MessageParts { file, line, item, member: none, rest: part(message, cuts, 6) };
            assert(is_built_from(message, p));
        },
    }
}

proof fn lemma_run_of_text(piece: Piece, own: Seq<char>)
    requires
        piece_matches(piece, own),
        piece is Group && piece->Group_1 is AnyPlus || piece is Plain && piece->Plain_0 is AnyPlus,
    ensures
        is_some_text(own),
{
    assert(run_matches(Run::AnyPlus, own));
    assert forall|i: int| 0 <= i < own.len() implies own[i] != '\n' by {
        assert(run_char(Run::AnyPlus, own[i]));
    }
}

proof fn lemma_rest_of_text(piece: Piece, own: Seq<char>)
    requires
        piece_matches(piece, own),
        piece is Plain && piece->Plain_0 is AnyStar,
    ensures
        !own.contains('\n'),
{
    assert(run_matches(Run::AnyStar, own));
    assert forall|i: int| 0 <= i < own.len() implies own[i] != '\n' by {
        assert(run_char(Run::AnyStar, own[i]));
    }
}

proof fn lemma_run_of_word(piece: Piece, own: Seq<char>)
    requires
        piece_matches(piece, own),
        piece is Group && piece->Group_1 is Word,
    ensures
        is_item_name(own),
{
    assert(run_matches(Run::Word, own));
    assert forall|i: int| 0 <= i < own.len() implies is_word_char(#[trigger] own[i]) by {
        assert(run_char(Run::Word, own[i]));
    }
}

proof fn lemma_run_of_digits(piece: Piece, own: Seq<char>)
    requires
        piece_matches(piece, own),
        piece is Group && piece->Group_1 is Digits,
    ensures
        is_some_number(own),
{
    assert(run_matches(Run::Digits, own));
    assert forall|i: int| 0 <= i < own.len() implies is_digit(#[trigger] own[i]) by {
        assert(run_char(Run::Digits, own[i]));
    }
}

/// Two stretches that follow each other.
proof fn lemma_stretches(s: Seq<char>, a: int, b: int, c: int)
    requires
        0 <= a <= b <= c <= s.len(),
    ensures
        s.subrange(a, b) + s.subrange(b, c) == s.subrange(a, c),
{
    assert(s.subrange(a, b) + s.subrange(b, c) =~= s.subrange(a, c));
}

/// The cuts go through the whole text, from its beginning to its end.
spec fn are_cuts(s: Seq<char>, cuts: Seq<int>, n: int) -> bool {
    &&& cuts.len() == n + 1
    &&& cuts[0] == 0
    &&& cuts[n] == s.len()
    &&& forall|i: int|
        0 <= i < n ==> #[trigger] cuts[i] <= cuts[i + 1] <= s.len() && 0 <= cuts[i]
}

proof fn lemma_three_parts(s: Seq<char>, cuts: Seq<int>)
    requires
        are_cuts(s, cuts, 3),
    ensures
        s == part(s, cuts, 0) + part(s, cuts, 1) + part(s, cuts, 2),
{
    assert(cuts[0] <= cuts[1] && cuts[1] <= cuts[2] && cuts[2] <= cuts[3]);
    lemma_stretches(s, cuts[0], cuts[1], cuts[2]);
    lemma_stretches(s, cuts[0], cuts[2], cuts[3]);
    assert(s.subrange(0, s.len() as int) =~= s);
}

proof fn lemma_five_parts(s: Seq<char>, cuts: Seq<int>)
    requires
        are_cuts(s, cuts, 5),
    ensures
        s == part(s, cuts, 0) + part(s, cuts, 1) + part(s, cuts, 2) + part(s, cuts, 3) + part(
            s,
            cuts,
            4,
        ),
{
    lemma_front_parts(s, cuts, 5);
    lemma_stretches(s, cuts[0], cuts[4], cuts[5]);
    assert(s.subrange(0, s.len() as int) =~= s);
}

/// The first four parts.
proof fn lemma_front_parts(s: Seq<char>, cuts: Seq<int>, n: int)
    requires
        are_cuts(s, cuts, n),
        n >= 4,
    ensures
        part(s, cuts, 0) + part(s, cuts, 1) + part(s, cuts, 2) + part(s, cuts, 3) == s.subrange(
            cuts[0],
            cuts[4],
        ),
        0 <= cuts[0] <= cuts[4] <= s.len(),
        n > 4 ==> cuts[4] <= cuts[5] <= s.len(),
        n > 5 ==> cuts[5] <= cuts[6] <= s.len(),
        n > 6 ==> cuts[6] <= cuts[7] <= s.len(),
        n > 7 ==> cuts[7] <= cuts[8] <= s.len(),
{
    assert(cuts[0] <= cuts[1] && cuts[1] <= cuts[2] && cuts[2] <= cuts[3] && cuts[3] <= cuts[4]);
    lemma_stretches(s, cuts[0], cuts[1], cuts[2]);
    lemma_stretches(s, cuts[0], cuts[2], cuts[3]);
    lemma_stretches(s, cuts[0], cuts[3], cuts[4]);
}

proof fn lemma_six_parts(s: Seq<char>, cuts: Seq<int>)
    requires
        are_cuts(s, cuts, 6),
    ensures
        s == part(s, cuts, 0) + part(s, cuts, 1) + part(s, cuts, 2) + part(s, cuts, 3) + part(
            s,
            cuts,
            4,
        ) + part(s, cuts, 5),
{
    lemma_front_parts(s, cuts, 6);
    lemma_stretches(s, cuts[0], cuts[4], cuts[5]);
    lemma_stretches(s, cuts[0], cuts[5], cuts[6]);
    assert(s.subrange(0, s.len() as int) =~= s);
}

proof fn lemma_seven_parts(s: Seq<char>, cuts: Seq<int>)
    requires
        are_cuts(s, cuts, 7),
    ensures
        s == part(s, cuts, 0) + part(s, cuts, 1) + part(s, cuts, 2) + part(s, cuts, 3) + part(
            s,
            cuts,
            4,
        ) + part(s, cuts, 5) + part(s, cuts, 6),
{
    lemma_front_parts(s, cuts, 7);
    lemma_stretches(s, cuts[0], cuts[4], cuts[5]);
    lemma_stretches(s, cuts[0], cuts[5], cuts[6]);
    lemma_stretches(s, cuts[0], cuts[6], cuts[7]);
    assert(s.subrange(0, s.len() as int) =~= s);
}

proof fn lemma_eight_parts(s: Seq<char>, cuts: Seq<int>)
    requires
        are_cuts(s, cuts, 8),
    ensures
        s == part(s, cuts, 0) + part(s, cuts, 1) + part(s, cuts, 2) + part(s, cuts, 3) + part(
            s,
            cuts,
            4,
        ) + part(s, cuts, 5) + part(s, cuts, 6) + part(s, cuts, 7),
{
    lemma_front_parts(s, cuts, 8);
    lemma_stretches(s, cuts[0], cuts[4], cuts[5]);
    lemma_stretches(s, cuts[0], cuts[5], cuts[6]);
    lemma_stretches(s, cuts[0], cuts[6], cuts[7]);
    lemma_stretches(s, cuts[0], cuts[7], cuts[8]);
    assert(s.subrange(0, s.len() as int) =~= s);
}

// ---------------------------------------------------------------------------
// Characters
// ---------------------------------------------------------------------------

/// The ASCII characters that the expressions tell apart.
pub proof fn law_ascii_characters_are_told_apart(c: char)
    requires
        c <= '\u{7f}',
    ensures
        is_digit(c) <==> '0' <= c <= '9',
        is_word_char(c) <==> '0' <= c <= '9' || 'A' <= c <= 'Z' || c == '_' || 'a' <= c <= 'z',
{
}

/// A snake_case identifier: small letters, digits and underscores, with no
/// digit in front. Between backticks it is quoted.
pub proof fn law_snake_case_is_known_by_its_characters(name: Seq<char>, c: char)
    ensures
        is_snake_start(c) <==> 'a' <= c <= 'z' || c == '_',
        is_snake_char(c) <==> 'a' <= c <= 'z' || '0' <= c <= '9' || c == '_',
        is_snake_case(name) <==> name.len() > 0 && !('0' <= name[0] <= '9') && forall|i: int|
            0 <= i < name.len() ==> 'a' <= #[trigger] name[i] <= 'z' || '0' <= name[i] <= '9'
                || name[i] == '_',
        quoted(name) == seq!['`'] + name + seq!['`'],
{
    if is_snake_case(name) {
        assert forall|i: int| 0 <= i < name.len() implies 'a' <= #[trigger] name[i] <= 'z' || '0'
            <= name[i] <= '9' || name[i] == '_' by {
            assert(is_snake_char(name[i]));
        }
    }
    if name.len() > 0 && !('0' <= name[0] <= '9') && forall|i: int|
        0 <= i < name.len() ==> 'a' <= #[trigger] name[i] <= 'z' || '0' <= name[i] <= '9'
            || name[i] == '_' {
        assert forall|i: int| 0 <= i < name.len() implies is_snake_char(#[trigger] name[i]) by {}
        assert(is_snake_start(name[0]));
    }
}

} // verus!
