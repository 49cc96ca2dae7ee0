//! Every kind of message is recognized by its rule.

use crate::checks::sections_missing;
use crate::findings::{
    error_variant_text, event_field_text, event_unnamed_field_message, event_variant_text,
    fn_missing_message, fn_missing_text, fn_undocumented_text, orphaned_doc_message, stale_ref_text,
};
use crate::identity::{
    all_rules, captured, first_identity, identity, identity_text, normalize_file, rule_identity,
    rule_pieces, Rule,
};
use crate::identity_form::{is_respelling, law_spellings_have_one_form, lemma_parents, parents};
use crate::patterns::{
    comes_first, covers, fits, lemma_cuts_ascend, lemma_whole_match_exists,
    lemma_whole_match_unique, matches_whole, part, piece_matches, run_char, run_matches,
    whole_match, Piece, Run,
};
use crate::shape::{
    are_digits, is_delimiter, is_name, is_row, is_tail, item_a_index, item_b_index, keyword_index,
    lemma_groups, lemma_literals, lemma_shape, literal_text, run_of,
};
use crate::text::{decimal, join_text, lemma_decimal_digits};
use vstd::prelude::*;

verus! {

// ---------------------------------------------------------------------------
// Every kind of message has its identity
// ---------------------------------------------------------------------------

/// The parts written one after another.
spec fn written(parts: Seq<Seq<char>>) -> Seq<char>
    decreases parts.len(),
{
    if parts.len() == 0 {
        Seq::empty()
    } else {
        written(parts.drop_last()) + parts.last()
    }
}

/// The cuts between the parts.
spec fn cuts_between(parts: Seq<Seq<char>>) -> Seq<int> {
    Seq::new((parts.len() + 1) as nat, |i: int| written(parts.take(i)).len() as int)
}

/// The first parts are written at the front.
proof fn lemma_written_front(parts: Seq<Seq<char>>, i: int)
    requires
        0 <= i <= parts.len(),
    ensures
        written(parts.take(i)).len() <= written(parts).len(),
        written(parts).subrange(0, written(parts.take(i)).len() as int) == written(parts.take(i)),
    decreases parts.len() - i,
{
    if i == parts.len() {
        assert(parts.take(i) =~= parts);
        assert(written(parts).subrange(0, written(parts).len() as int) =~= written(parts));
    } else {
        let longer = parts.take(i + 1);
        lemma_written_front(parts, i + 1);
        assert(longer.drop_last() =~= parts.take(i));
        let front = written(parts.take(i));
        let whole = written(parts);
        assert(whole.subrange(0, front.len() as int) =~= whole.subrange(
            0,
            written(longer).len() as int,
        ).subrange(0, front.len() as int));
        assert(written(longer).subrange(0, front.len() as int) =~= front);
    }
}

/// Parts that the pieces match one by one make a match of the whole.
proof fn lemma_parts_cover(pieces: Seq<Piece>, parts: Seq<Seq<char>>)
    requires
        pieces.len() == parts.len(),
        forall|i: int| 0 <= i < pieces.len() ==> piece_matches(#[trigger] pieces[i], parts[i]),
    ensures
        covers(pieces, written(parts), cuts_between(parts)),
        forall|i: int|
            0 <= i < parts.len() ==> #[trigger] part(written(parts), cuts_between(parts), i)
                == parts[i],
{
    let whole = written(parts);
    let cuts = cuts_between(parts);
    assert forall|i: int|
        #![trigger pieces[i]]
        #![trigger cuts[i]]
        #![trigger part(whole, cuts, i)]
        0 <= i < pieces.len() implies 0 <= cuts[i] <= cuts[i + 1] <= whole.len() && piece_matches(
        pieces[i],
        part(whole, cuts, i),
    ) && part(whole, cuts, i) == parts[i] by {
        let longer = parts.take(i + 1);
        lemma_written_front(parts, i + 1);
        assert(longer.drop_last() =~= parts.take(i));
        assert(longer.last() == parts[i]);
        assert(part(whole, cuts, i) =~= whole.subrange(0, cuts[i + 1]).subrange(
            cuts[i],
            cuts[i + 1],
        ));
        assert(part(whole, cuts, i) =~= parts[i]);
    }
    assert(parts.take(0) =~= Seq::empty());
    assert(parts.take(parts.len() as int) =~= parts);
    assert(fits(pieces, whole, cuts));
}

/// Two ways to match that agree on the file agree altogether.
proof fn lemma_file_decides(
    pieces: Seq<Piece>,
    message: Seq<char>,
    a: Seq<int>,
    b: Seq<int>,
    i: int,
)
    requires
        is_row(pieces),
        covers(pieces, message, a),
        covers(pieces, message, b),
        a[1] == b[1],
        1 <= i < a.len(),
    ensures
        a[i] == b[i],
    decreases i,
{
    if i > 1 && i < pieces.len() {
        let k = i - 1;
        lemma_file_decides(pieces, message, a, b, k);
        assert(piece_matches(pieces[k], part(message, a, k)));
        assert(piece_matches(pieces[k], part(message, b, k)));
        if k % 2 == 1 {
            assert(pieces[k] is Literal);
            assert(part(message, a, k).len() == part(message, b, k).len());
        } else {
            let run = run_of(pieces[k]);
            assert(run is Digits || run is Word);
            assert((k + 1) % 2 == 1);
            assert(pieces[k + 1] is Literal);
            let text = literal_text(pieces[k + 1]);
            assert(is_delimiter(text));
            assert(piece_matches(pieces[k + 1], part(message, a, k + 1)));
            assert(piece_matches(pieces[k + 1], part(message, b, k + 1)));
            assert(part(message, a, k + 1)[0] == message[a[i]]);
            assert(part(message, b, k + 1)[0] == message[b[i]]);
            assert(!run_char(run, text[0]));
            if a[i] < b[i] {
                assert(part(message, b, k)[a[i] - b[k]] == message[a[i]]);
            } else if b[i] < a[i] {
                assert(part(message, a, k)[b[i] - a[k]] == message[b[i]]);
            }
        }
    }
}

/// A way to match whose file no other way exceeds is the match.
proof fn lemma_longest_file_matches(rule: Rule, message: Seq<char>, cuts: Seq<int>)
    requires
        covers(rule_pieces(rule), message, cuts),
        forall|other: Seq<int>| #[trigger]
            covers(rule_pieces(rule), message, other) ==> other[1] <= cuts[1],
    ensures
        whole_match(rule_pieces(rule), message, cuts),
        captured(rule, message) == Some(cuts),
{
    lemma_shape(rule);
    let pieces = rule_pieces(rule);
    assert forall|other: Seq<int>| #[trigger] covers(pieces, message, other) implies other == cuts
        || comes_first(cuts, other) by {
        if other[1] == cuts[1] {
            assert forall|i: int| 0 <= i < cuts.len() implies cuts[i] == other[i] by {
                if i > 0 {
                    lemma_file_decides(pieces, message, cuts, other, i);
                }
            }
            assert(other =~= cuts);
        } else {
            assert(cuts[1] > other[1]);
            assert forall|i: int| 0 <= i < 1 implies #[trigger] cuts[i] == other[i] by {}
            assert(comes_first(cuts, other));
        }
    }
    assert(whole_match(pieces, message, cuts));
    lemma_whole_match_unique(pieces, message, cuts, captured(rule, message)->0);
}

/// The message of a rule is recognized by that rule.
///
/// `parts` are its parts, and the last colon that could end its file is the
/// one that does.
proof fn lemma_own_rule_recognizes(rule: Rule, parts: Seq<Seq<char>>)
    requires
        parts.len() == rule_pieces(rule).len(),
        forall|i: int|
            0 <= i < parts.len() ==> piece_matches(#[trigger] rule_pieces(rule)[i], parts[i]),
        keyword_index(rule) == 1 ==> forall|k: int|
            parts[0].len() < k < written(parts).len() ==> #[trigger] written(parts)[k] != ':',
        keyword_index(rule) == 3 ==> are_digits(parts[2]) && forall|k: int|
            parts[0].len() < k < written(parts).len() && k != parts[0].len() + 1 + parts[2].len()
                ==> #[trigger] written(parts)[k] != ':',
    ensures
        rule_identity(rule, written(parts)) == Some(
            identity_text(
                rule,
                parts[0],
                (match item_a_index(rule) {
                    Some(i) => parts[i],
                    None => Seq::empty(),
                }),
                (match item_b_index(rule) {
                    Some(i) => parts[i],
                    None => Seq::empty(),
                }),
            ),
        ),
{
    lemma_shape(rule);
    lemma_literals();
    let pieces = rule_pieces(rule);
    let message = written(parts);
    let cuts = cuts_between(parts);
    lemma_parts_cover(pieces, parts);
    assert(cuts[1] == parts[0].len()) by {
        assert(part(message, cuts, 0) == parts[0]);
    }
    assert forall|other: Seq<int>| #[trigger] covers(pieces, message, other) implies other[1]
        <= cuts[1] by {
        if other[1] > cuts[1] {
            assert(piece_matches(pieces[1], part(message, other, 1)));
            assert(part(message, other, 1)[0] == message[other[1]]);
            lemma_cuts_ascend(pieces, message, other, 1, 2);
            assert(message[other[1]] == ':');
            if keyword_index(rule) == 3 {
                assert(part(message, cuts, 1) == parts[1] && part(message, cuts, 2) == parts[2]
                    && part(message, cuts, 3) == parts[3]);
                lemma_cuts_ascend(pieces, message, cuts, 1, 2);
                lemma_cuts_ascend(pieces, message, cuts, 2, 3);
                lemma_cuts_ascend(pieces, message, cuts, 3, 4);
                assert(piece_matches(pieces[1], parts[1]));
                assert(piece_matches(pieces[3], parts[3]));
                assert(cuts[3] == parts[0].len() + 1 + parts[2].len());
                assert(other[1] == cuts[3]);
                assert(parts[3][1] == message[cuts[3] + 1]);
                assert(piece_matches(pieces[2], part(message, other, 2)));
                assert(other[2] == cuts[3] + 1);
                assert(part(message, other, 2)[0] == message[other[2]]);
            }
        }
    }
    lemma_longest_file_matches(rule, message, cuts);
    lemma_groups(rule, message, cuts);
    if item_a_index(rule) is Some {
        assert(part(message, cuts, item_a_index(rule)->0) == parts[item_a_index(rule)->0]);
    }
    if item_b_index(rule) is Some {
        assert(part(message, cuts, item_b_index(rule)->0) == parts[item_b_index(rule)->0]);
    }
}

/// The place of a rule among those that are tried.
pub open spec fn rule_place(rule: Rule) -> int {
    match rule {
        Rule::FnMissingSections => 0,
        Rule::FnUndocumented => 1,
        Rule::EventField => 2,
        Rule::EventUnnamedField => 3,
        Rule::EventVariant => 4,
        Rule::ErrorVariant => 5,
        Rule::OrphanedDoc => 6,
        Rule::StaleRef => 7,
    }
}

/// A rule that is tried before `rule` recognizes `message`.
pub open spec fn is_claimed_earlier(rule: Rule, message: Seq<char>) -> bool {
    exists|other: Rule|
        rule_place(other) < rule_place(rule) && #[trigger] matches_whole(
            rule_pieces(other),
            message,
        )
}

/// A rule recognizes a message exactly if its expression matches it.
proof fn lemma_recognized(rule: Rule, message: Seq<char>)
    ensures
        rule_identity(rule, message) is Some <==> matches_whole(rule_pieces(rule), message),
{
    lemma_shape(rule);
    let pieces = rule_pieces(rule);
    if matches_whole(pieces, message) {
        lemma_whole_match_exists(pieces, message);
    }
    if captured(rule, message) is Some {
        assert(covers(pieces, message, captured(rule, message)->0));
    }
}

/// The first rule to recognize a message decides.
proof fn lemma_first_rule_decides(rule: Rule, message: Seq<char>, from: int)
    requires
        rule_identity(rule, message) is Some,
        !is_claimed_earlier(rule, message),
        0 <= from <= rule_place(rule),
    ensures
        first_identity(all_rules().skip(from), message) == rule_identity(rule, message),
    decreases rule_place(rule) - from,
{
    let rules = all_rules().skip(from);
    assert(rules[0] == all_rules()[from]);
    if from < rule_place(rule) {
        assert(rule_place(rules[0]) == from);
        lemma_recognized(rules[0], message);
        assert(rules.drop_first() =~= all_rules().skip(from + 1));
        lemma_first_rule_decides(rule, message, from + 1);
    } else {
        assert(rules[0] == rule);
    }
}

proof fn lemma_identity_of_own_rule(rule: Rule, message: Seq<char>)
    requires
        rule_identity(rule, message) is Some,
        !is_claimed_earlier(rule, message),
    ensures
        identity(message) == rule_identity(rule, message),
{
    lemma_first_rule_decides(rule, message, 0);
    assert(all_rules().skip(0) =~= all_rules());
}

/// A message without identity is one that no rule recognizes, and no other:
/// what the rules do not know is never taken for something else.
pub proof fn law_unknown_messages_have_no_identity(message: Seq<char>)
    ensures
        identity(message) is None <==> forall|rule: Rule|
            !#[trigger] matches_whole(rule_pieces(rule), message),
{
    if identity(message) is None {
        assert forall|rule: Rule| !#[trigger] matches_whole(rule_pieces(rule), message) by {
            if matches_whole(rule_pieces(rule), message) {
                lemma_some_rule_decides(message, rule);
            }
        }
    } else {
        lemma_some_rule_recognizes(all_rules(), message);
        let rule = choose|rule: Rule| rule_identity(rule, message) is Some;
        lemma_recognized(rule, message);
    }
}

/// A message that a rule recognizes has an identity.
proof fn lemma_some_rule_decides(message: Seq<char>, rule: Rule)
    requires
        matches_whole(rule_pieces(rule), message),
    ensures
        identity(message) is Some,
    decreases rule_place(rule),
{
    lemma_recognized(rule, message);
    if is_claimed_earlier(rule, message) {
        let other = choose|other: Rule|
            rule_place(other) < rule_place(rule) && #[trigger] matches_whole(
                rule_pieces(other),
                message,
            );
        lemma_some_rule_decides(message, other);
    } else {
        lemma_identity_of_own_rule(rule, message);
    }
}

/// An identity comes from a rule.
proof fn lemma_some_rule_recognizes(rules: Seq<Rule>, message: Seq<char>)
    requires
        first_identity(rules, message) is Some,
    ensures
        exists|rule: Rule| rule_identity(rule, message) is Some,
    decreases rules.len(),
{
    if rule_identity(rules[0], message) is None {
        lemma_some_rule_recognizes(rules.drop_first(), message);
    }
}

/// A file that a message can name: not empty, and on one line.
pub open spec fn is_file(text: Seq<char>) -> bool {
    run_matches(Run::AnyPlus, text)
}

/// An item that a message can name: one or more word characters.
pub open spec fn is_word(text: Seq<char>) -> bool {
    run_matches(Run::Word, text)
}

/// Word characters are no colons, spaces or backticks.
proof fn lemma_word(text: Seq<char>)
    requires
        is_word(text),
    ensures
        forall|i: int|
            0 <= i < text.len() ==> #[trigger] text[i] != ':' && text[i] != ' ' && text[i] != '`',
{
    assert forall|i: int| 0 <= i < text.len() implies #[trigger] text[i] != ':' && text[i] != ' '
        && text[i] != '`' by {
        assert(run_char(Run::Word, text[i]));
    }
}

/// One more part is written behind the others.
proof fn lemma_written_push(parts: Seq<Seq<char>>, last: Seq<char>)
    ensures
        written(parts.push(last)) == written(parts) + last,
{
    assert(parts.push(last).drop_last() =~= parts);
}

/// Three parts written one after another.
proof fn lemma_written_three(a: Seq<char>, b: Seq<char>, c: Seq<char>)
    ensures
        written(seq![a, b, c]) == a + b + c,
{
    lemma_written_push(Seq::empty(), a);
    lemma_written_push(seq![a], b);
    lemma_written_push(seq![a, b], c);
    assert(Seq::<Seq<char>>::empty().push(a) =~= seq![a]);
    assert(seq![a].push(b) =~= seq![a, b]);
    assert(seq![a, b].push(c) =~= seq![a, b, c]);
    assert(Seq::<char>::empty() + a =~= a);
}

/// The first three parts and the rest, however many.
proof fn lemma_written_front_three(parts: Seq<Seq<char>>, rest: Seq<Seq<char>>)
    requires
        parts.len() == 3 + rest.len(),
        forall|i: int| 0 <= i < rest.len() ==> parts[i + 3] == #[trigger] rest[i],
    ensures
        written(parts) == parts[0] + parts[1] + parts[2] + written(rest),
    decreases rest.len(),
{
    if rest.len() == 0 {
        lemma_written_three(parts[0], parts[1], parts[2]);
        assert(parts =~= seq![parts[0], parts[1], parts[2]]);
        assert(written(parts) =~= parts[0] + parts[1] + parts[2] + written(rest));
    } else {
        let fewer = rest.drop_last();
        assert forall|i: int| 0 <= i < fewer.len() implies parts.drop_last()[i + 3]
            == #[trigger] fewer[i] by {
            assert(rest[i] == fewer[i]);
        }
        lemma_written_front_three(parts.drop_last(), fewer);
        assert(parts.last() == rest[rest.len() - 1]);
        assert(written(parts) =~= parts[0] + parts[1] + parts[2] + written(rest));
    }
}

/// Digits are matched as a number.
proof fn lemma_digits_match(number: Seq<char>)
    requires
        are_digits(number),
    ensures
        run_matches(Run::Digits, number),
{
    assert forall|i: int| 0 <= i < number.len() implies run_char(
        Run::Digits,
        #[trigger] number[i],
    ) by {}
}

/// A message with a line number is recognized by its rule.
proof fn lemma_lined_message(
    rule: Rule,
    file: Seq<char>,
    number: Seq<char>,
    rest: Seq<Seq<char>>,
    message: Seq<char>,
)
    requires
        are_digits(number),
        keyword_index(rule) == 3,
        is_file(file),
        rule_pieces(rule).len() == 3 + rest.len(),
        forall|i: int|
            0 <= i < rest.len() ==> piece_matches(rule_pieces(rule)[i + 3], #[trigger] rest[i]),
        is_tail(written(rest)),
        message == file + ":"@ + number + written(rest),
        !is_claimed_earlier(rule, message),
    ensures
        identity(message) == Some(
            identity_text(
                rule,
                file,
                rest[1],
                (match item_b_index(rule) {
                    Some(i) => rest[i - 3],
                    None => Seq::empty(),
                }),
            ),
        ),
{
    lemma_literals();
    lemma_shape(rule);
    lemma_digits_match(number);
    let pieces = rule_pieces(rule);
    let parts = seq![file, ":"@, number] + rest;
    assert forall|i: int| 0 <= i < rest.len() implies parts[i + 3] == #[trigger] rest[i] by {}
    lemma_written_front_three(parts, rest);
    assert forall|i: int| 0 <= i < parts.len() implies piece_matches(
        #[trigger] pieces[i],
        parts[i],
    ) by {
        if i >= 3 {
            assert(parts[i] == rest[i - 3]);
        }
    }
    let tail = written(rest);
    assert forall|k: int|
        file.len() < k < message.len() && k != file.len() + 1 + number.len() implies #[trigger] message[k] != ':' by {
        if k > file.len() + 1 + number.len() {
            assert(message[k] == tail[k - (file.len() + 1 + number.len())]);
        } else {
            assert(message[k] == number[k - file.len() - 1]);
        }
    }
    lemma_own_rule_recognizes(rule, parts);
    lemma_identity_of_own_rule(rule, message);
}

/// A message about a function with missing sections is known by the file and
/// the function.
pub proof fn law_identity_of_missing_sections(
    file: Seq<char>,
    number: Seq<char>,
    name: Seq<char>,
    sections: Seq<char>,
)
    requires
        are_digits(number),
        is_file(file),
        is_word(name),
        run_matches(Run::AnyPlus, sections),
        forall|i: int| 0 <= i < sections.len() ==> sections[i] != ':',
    ensures
        identity(fn_missing_text(file, number, name, sections)) == Some(
            identity_text(Rule::FnMissingSections, file, name, Seq::empty()),
        ),
{
    lemma_literals();
    lemma_word(name);
    let message = fn_missing_text(file, number, name, sections);
    let rest = seq![": fn "@, name, " missing "@, sections];
    lemma_written_three(": fn "@, name, " missing "@);
    lemma_written_push(seq![": fn "@, name, " missing "@], sections);
    assert(seq![": fn "@, name, " missing "@].push(sections) =~= rest);
    assert(message =~= file + ":"@ + number + written(rest));
    lemma_lined_message(Rule::FnMissingSections, file, number, rest, message);
}

/// Neither a colon nor a line feed.
spec fn is_plain_text(text: Seq<char>) -> bool {
    forall|i: int| 0 <= i < text.len() ==> #[trigger] text[i] != ':' && text[i] != '\n'
}

/// A list of plain texts, not empty, is written as a plain text, not empty.
proof fn lemma_joined_text(items: Seq<Seq<char>>, separator: Seq<char>)
    requires
        items.len() > 0,
        is_plain_text(separator),
        forall|i: int|
            0 <= i < items.len() ==> is_plain_text(#[trigger] items[i]) && items[i].len() > 0,
    ensures
        is_plain_text(join_text(items, separator)),
        join_text(items, separator).len() > 0,
    decreases items.len(),
{
    if items.len() == 1 {
        assert(is_plain_text(items[0]));
    } else {
        let front = items.drop_last();
        assert forall|i: int| 0 <= i < front.len() implies is_plain_text(#[trigger] front[i])
            && front[i].len() > 0 by {
            assert(front[i] == items[i]);
        }
        lemma_joined_text(front, separator);
        assert(is_plain_text(items[items.len() - 1]));
    }
}

/// What is reported of a function that lacks sections is known by the file
/// and the function, whichever sections it lacks.
pub proof fn law_reported_sections_are_recognized(
    file: Seq<char>,
    line: nat,
    name: Seq<char>,
    doc: Seq<char>,
    takes_inputs: bool,
    returns_value: bool,
)
    requires
        is_file(file),
        is_word(name),
        sections_missing(doc, takes_inputs, returns_value).len() > 0,
    ensures
        identity(
            fn_missing_message(
                file,
                line,
                name,
                join_text(sections_missing(doc, takes_inputs, returns_value), ", "@),
            ),
        ) == Some(identity_text(Rule::FnMissingSections, file, name, Seq::empty())),
{
    let missing = sections_missing(doc, takes_inputs, returns_value);
    let sections = join_text(missing, ", "@);
    reveal_strlit("params");
    reveal_strlit("return");
    reveal_strlit("access control");
    reveal_strlit(", ");
    assert(is_plain_text("params"@) && is_plain_text("return"@));
    assert(is_plain_text("access control"@) && is_plain_text(", "@));
    assert forall|i: int| 0 <= i < missing.len() implies is_plain_text(#[trigger] missing[i])
        && missing[i].len() > 0 by {
        assert(missing[i] == "params"@ || missing[i] == "return"@ || missing[i]
            == "access control"@);
    }
    lemma_joined_text(missing, ", "@);
    assert forall|i: int| 0 <= i < sections.len() implies sections[i] != ':' && run_char(
        Run::AnyPlus,
        #[trigger] sections[i],
    ) by {}
    lemma_decimal_digits(line);
    law_identity_of_missing_sections(file, decimal(line), name, sections);
}

/// A message about a function without a doc comment is known by the file and
/// the function, unless an earlier rule claims it.
pub proof fn law_identity_of_undocumented_function(file: Seq<char>, number: Seq<char>, name: Seq<char>)
    requires
        are_digits(number),
        is_file(file),
        is_word(name),
        !is_claimed_earlier(Rule::FnUndocumented, fn_undocumented_text(file, number, name)),
    ensures
        identity(fn_undocumented_text(file, number, name)) == Some(
            identity_text(Rule::FnUndocumented, file, name, Seq::empty()),
        ),
{
    lemma_literals();
    lemma_word(name);
    reveal_strlit(" has no doc comment at all");
    let message = fn_undocumented_text(file, number, name);
    let rest = seq![": fn "@, name, " has no doc comment at all"@];
    lemma_written_three(": fn "@, name, " has no doc comment at all"@);
    assert(message =~= file + ":"@ + number + written(rest));
    lemma_lined_message(Rule::FnUndocumented, file, number, rest, message);
}

/// A message about a named field is known by the file, the struct and the
/// field, unless an earlier rule claims it.
pub proof fn law_identity_of_event_field(
    file: Seq<char>,
    number: Seq<char>,
    name: Seq<char>,
    field: Seq<char>,
)
    requires
        are_digits(number),
        is_file(file),
        is_word(name),
        is_word(field),
        !is_claimed_earlier(Rule::EventField, event_field_text(file, number, name, field)),
    ensures
        identity(event_field_text(file, number, name, field)) == Some(
            identity_text(Rule::EventField, file, name, field),
        ),
{
    lemma_literals();
    lemma_word(name);
    lemma_word(field);
    reveal_strlit(" missing docs for field ");
    let message = event_field_text(file, number, name, field);
    let front = seq![": struct "@, name, " missing docs for field "@];
    let rest = front.push(field);
    lemma_written_three(": struct "@, name, " missing docs for field "@);
    lemma_written_push(front, field);
    assert(message =~= file + ":"@ + number + written(rest));
    lemma_lined_message(Rule::EventField, file, number, rest, message);
}

/// A message about an unnamed field is known by the file, the struct and the
/// index, unless an earlier rule claims it.
pub proof fn law_identity_of_event_unnamed_field(file: Seq<char>, name: Seq<char>, index: nat)
    requires
        is_file(file),
        is_word(name),
        !is_claimed_earlier(
            Rule::EventUnnamedField,
            event_unnamed_field_message(file, name, index),
        ),
    ensures
        identity(event_unnamed_field_message(file, name, index)) == Some(
            identity_text(Rule::EventUnnamedField, file, name, decimal(index)),
        ),
{
    lemma_literals();
    lemma_word(name);
    lemma_decimal_digits(index);
    lemma_digits_match(decimal(index));
    reveal_strlit(" missing docs for unnamed field ");
    let rule = Rule::EventUnnamedField;
    let message = event_unnamed_field_message(file, name, index);
    let front = seq![file, ": struct "@, name];
    let most = front.push(" missing docs for unnamed field "@);
    let parts = most.push(decimal(index));
    lemma_written_three(file, ": struct "@, name);
    lemma_written_push(front, " missing docs for unnamed field "@);
    lemma_written_push(most, decimal(index));
    assert(written(parts) =~= message);
    lemma_own_rule_recognizes(rule, parts);
    lemma_identity_of_own_rule(rule, message);
}

/// A message about an event variant is known by the file, the enum and the
/// variant, unless an earlier rule claims it.
pub proof fn law_identity_of_event_variant(
    file: Seq<char>,
    number: Seq<char>,
    name: Seq<char>,
    variant: Seq<char>,
)
    requires
        are_digits(number),
        is_file(file),
        is_word(name),
        is_word(variant),
        !is_claimed_earlier(Rule::EventVariant, event_variant_text(file, number, name, variant)),
    ensures
        identity(event_variant_text(file, number, name, variant)) == Some(
            identity_text(Rule::EventVariant, file, name, variant),
        ),
{
    lemma_literals();
    lemma_word(name);
    lemma_word(variant);
    reveal_strlit(" missing docs for variant ");
    let message = event_variant_text(file, number, name, variant);
    let front = seq![": enum "@, name, " missing docs for variant "@];
    let rest = front.push(variant);
    lemma_written_three(": enum "@, name, " missing docs for variant "@);
    lemma_written_push(front, variant);
    assert(message =~= file + ":"@ + number + written(rest));
    lemma_lined_message(Rule::EventVariant, file, number, rest, message);
}

/// A message about an error variant is known by the file, the enum and the
/// variant, unless an earlier rule claims it.
pub proof fn law_identity_of_error_variant(
    file: Seq<char>,
    number: Seq<char>,
    name: Seq<char>,
    variant: Seq<char>,
)
    requires
        are_digits(number),
        is_file(file),
        is_word(name),
        is_word(variant),
        !is_claimed_earlier(Rule::ErrorVariant, error_variant_text(file, number, name, variant)),
    ensures
        identity(error_variant_text(file, number, name, variant)) == Some(
            identity_text(Rule::ErrorVariant, file, name, variant),
        ),
{
    lemma_literals();
    lemma_word(name);
    lemma_word(variant);
    reveal_strlit(" has no doc comment");
    let message = error_variant_text(file, number, name, variant);
    let front = seq![": error enum "@, name, " variant "@];
    let most = front.push(variant);
    let rest = most.push(" has no doc comment"@);
    lemma_written_three(": error enum "@, name, " variant "@);
    lemma_written_push(front, variant);
    lemma_written_push(most, " has no doc comment"@);
    assert(message =~= file + ":"@ + number + written(rest));
    lemma_lined_message(Rule::ErrorVariant, file, number, rest, message);
}

/// A message about an orphaned document is known by the document, unless an
/// earlier rule claims it.
pub proof fn law_identity_of_orphaned_doc(file: Seq<char>)
    requires
        is_file(file),
        !is_claimed_earlier(Rule::OrphanedDoc, orphaned_doc_message(file)),
    ensures
        identity(orphaned_doc_message(file)) == Some(
            identity_text(Rule::OrphanedDoc, file, Seq::empty(), Seq::empty()),
        ),
{
    reveal_strlit(": orphaned doc - ");
    reveal_strlit("not reachable from README.md or any docs index file");
    reveal_strlit(": orphaned doc - not reachable from README.md or any docs index file");
    let rule = Rule::OrphanedDoc;
    let message = orphaned_doc_message(file);
    let reason = "not reachable from README.md or any docs index file"@;
    let parts = seq![file, ": orphaned doc - "@, reason];
    lemma_written_three(file, ": orphaned doc - "@, reason);
    assert(written(parts) =~= message);
    lemma_own_rule_recognizes(rule, parts);
    lemma_identity_of_own_rule(rule, message);
}

/// A message about a stale reference is known by the document and the name,
/// unless an earlier rule claims it.
pub proof fn law_identity_of_stale_reference(file: Seq<char>, number: Seq<char>, name: Seq<char>)
    requires
        are_digits(number),
        is_file(file),
        is_word(name),
        !is_claimed_earlier(Rule::StaleRef, stale_ref_text(file, number, name)),
    ensures
        identity(stale_ref_text(file, number, name)) == Some(
            identity_text(Rule::StaleRef, file, name, Seq::empty()),
        ),
{
    lemma_literals();
    lemma_word(name);
    reveal_strlit(": stale doc reference to `");
    reveal_strlit("– no matching pub fn found in contracts");
    reveal_strlit("` – no matching pub fn found in contracts");
    let message = stale_ref_text(file, number, name);
    let reason = "– no matching pub fn found in contracts"@;
    let front = seq![": stale doc reference to `"@, name, "` "@];
    let rest = front.push(reason);
    lemma_written_three(": stale doc reference to `"@, name, "` "@);
    lemma_written_push(front, reason);
    assert("` "@ + reason =~= "` – no matching pub fn found in contracts"@);
    assert(message =~= file + ":"@ + number + written(rest));
    lemma_lined_message(Rule::StaleRef, file, number, rest, message);
}

// ---------------------------------------------------------------------------
// Ordinary paths leave no doubt
// ---------------------------------------------------------------------------

/// A colon with a space behind it stands at `at` and nowhere else.
spec fn is_only_colon(message: Seq<char>, at: int) -> bool {
    forall|i: int|
        0 <= i < message.len() - 1 && #[trigger] message[i] == ':' && message[i + 1] == ' ' ==> i
            == at
}

/// The letters behind the colon that tell the keyword of a rule.
spec fn keyword_letters(rule: Rule) -> (char, char, char) {
    match rule {
        Rule::FnMissingSections | Rule::FnUndocumented => ('f', 'n', ' '),
        Rule::EventField | Rule::EventUnnamedField => ('s', 't', 'r'),
        Rule::EventVariant => ('e', 'n', 'u'),
        Rule::ErrorVariant => ('e', 'r', 'r'),
        Rule::OrphanedDoc => ('o', 'r', 'p'),
        Rule::StaleRef => ('s', 't', 'a'),
    }
}

/// The letters that stand behind the colon at `at`.
spec fn letters_behind(message: Seq<char>, at: int) -> (char, char, char) {
    (message[at + 2], message[at + 3], message[at + 4])
}

/// A rule finds its keyword at the only colon with a space behind it.
proof fn lemma_keyword_position(rule: Rule, message: Seq<char>, cuts: Seq<int>, at: int)
    requires
        covers(rule_pieces(rule), message, cuts),
        is_only_colon(message, at),
    ensures
        cuts[keyword_index(rule)] == at,
        letters_behind(message, at) == keyword_letters(rule),
{
    lemma_shape(rule);
    lemma_literals();
    reveal_strlit(": orphaned doc - ");
    reveal_strlit(": stale doc reference to `");
    let pieces = rule_pieces(rule);
    let k = keyword_index(rule);
    let text = literal_text(pieces[k]);
    let own = part(message, cuts, k);
    assert(piece_matches(pieces[k], own));
    assert(own == text);
    lemma_cuts_ascend(pieces, message, cuts, k, k + 1);
    assert(text.len() >= 5);
    assert(own[0] == message[cuts[k]] && own[1] == message[cuts[k] + 1]);
    assert(own[2] == message[cuts[k] + 2]);
    assert(own[3] == message[cuts[k] + 3]);
    assert(own[4] == message[cuts[k] + 4]);
}

/// A message whose keyword stands at its only colon with a space behind it
/// is not claimed by a rule with another keyword.
proof fn lemma_not_claimed(rule: Rule, message: Seq<char>, at: int)
    requires
        is_only_colon(message, at),
        letters_behind(message, at) == keyword_letters(rule),
        rule == Rule::FnUndocumented ==> !matches_whole(
            rule_pieces(Rule::FnMissingSections),
            message,
        ),
        rule == Rule::EventUnnamedField ==> !matches_whole(
            rule_pieces(Rule::EventField),
            message,
        ),
    ensures
        !is_claimed_earlier(rule, message),
{
    assert forall|other: Rule| rule_place(other) < rule_place(rule) implies !#[trigger] matches_whole(
        rule_pieces(other),
        message,
    ) by {
        if matches_whole(rule_pieces(other), message) {
            let cuts = choose|cuts: Seq<int>| covers(rule_pieces(other), message, cuts);
            lemma_keyword_position(other, message, cuts, at);
        }
    }
}

/// The name behind a keyword ends at the first space.
proof fn lemma_name_end(
    rule: Rule,
    message: Seq<char>,
    cuts: Seq<int>,
    name: Seq<char>,
)
    requires
        covers(rule_pieces(rule), message, cuts),
        rule == Rule::FnMissingSections || rule == Rule::EventField,
        is_name(name),
        cuts[4] + name.len() < message.len(),
        message.subrange(cuts[4], cuts[4] + name.len()) == name,
        message[cuts[4] + name.len()] == ' ',
    ensures
        cuts[5] == cuts[4] + name.len(),
{
    lemma_shape(rule);
    lemma_literals();
    reveal_strlit(" missing docs for field ");
    let pieces = rule_pieces(rule);
    let end = cuts[4] + name.len();
    let word = part(message, cuts, 4);
    let literal = part(message, cuts, 5);
    assert(piece_matches(pieces[4], word));
    assert(piece_matches(pieces[5], literal));
    assert(literal.len() > 0 && literal[0] == ' ');
    lemma_cuts_ascend(pieces, message, cuts, 4, 5);
    lemma_cuts_ascend(pieces, message, cuts, 5, 6);
    assert(literal[0] == message[cuts[5]]);
    if cuts[5] < end {
        assert(message.subrange(cuts[4], end)[cuts[5] - cuts[4]] == message[cuts[5]]);
        assert(name[cuts[5] - cuts[4]] == ' ');
    } else if cuts[5] > end {
        assert(word[end - cuts[4]] == ' ');
    }
}

/// A message about a function without a doc comment is not one about missing
/// sections.
proof fn lemma_undocumented_is_not_missing(message: Seq<char>, at: int, name: Seq<char>)
    requires
        is_only_colon(message, at),
        0 <= at <= message.len(),
        is_name(name),
        message.subrange(at, message.len() as int) == ": fn "@ + name
            + " has no doc comment at all"@,
    ensures
        !matches_whole(rule_pieces(Rule::FnMissingSections), message),
{
    let rule = Rule::FnMissingSections;
    if matches_whole(rule_pieces(rule), message) {
        let cuts = choose|cuts: Seq<int>| covers(rule_pieces(rule), message, cuts);
        let pieces = rule_pieces(rule);
        let tail = message.subrange(at, message.len() as int);
        lemma_literals();
        reveal_strlit(" has no doc comment at all");
        lemma_keyword_position(rule, message, cuts, at);
        assert(piece_matches(pieces[3], part(message, cuts, 3)));
        lemma_cuts_ascend(pieces, message, cuts, 3, 4);
        assert(cuts[4] == at + 5);
        assert(tail.len() == message.len() - at && tail.len() > 5 + name.len());
        assert(message.subrange(at + 5, at + 5 + name.len()) =~= tail.subrange(
            5,
            5 + name.len() as int,
        ));
        assert(tail.subrange(5, 5 + name.len() as int) =~= name);
        assert(tail[5 + name.len() as int] == ' ');
        lemma_name_end(rule, message, cuts, name);
        let literal = part(message, cuts, 5);
        assert(piece_matches(pieces[5], literal));
        lemma_cuts_ascend(pieces, message, cuts, 5, 6);
        assert(literal.len() > 1 && literal[1] == 'm');
        assert(literal[1] == message[cuts[5] + 1]);
        assert(tail[6 + name.len() as int] == 'h');
    }
}

/// A message about an unnamed field is not one about a named field.
proof fn lemma_unnamed_is_not_named(
    message: Seq<char>,
    at: int,
    name: Seq<char>,
    index: Seq<char>,
)
    requires
        is_only_colon(message, at),
        0 <= at <= message.len(),
        is_name(name),
        message.subrange(at, message.len() as int) == ": struct "@ + name
            + " missing docs for unnamed field "@ + index,
    ensures
        !matches_whole(rule_pieces(Rule::EventField), message),
{
    let rule = Rule::EventField;
    if matches_whole(rule_pieces(rule), message) {
        let cuts = choose|cuts: Seq<int>| covers(rule_pieces(rule), message, cuts);
        let pieces = rule_pieces(rule);
        let tail = message.subrange(at, message.len() as int);
        lemma_literals();
        reveal_strlit(" missing docs for field ");
        reveal_strlit(" missing docs for unnamed field ");
        lemma_keyword_position(rule, message, cuts, at);
        assert(piece_matches(pieces[3], part(message, cuts, 3)));
        lemma_cuts_ascend(pieces, message, cuts, 3, 4);
        assert(cuts[4] == at + 9);
        assert(tail.len() == message.len() - at && tail.len() > 9 + name.len());
        assert(message.subrange(at + 9, at + 9 + name.len()) =~= tail.subrange(
            9,
            9 + name.len() as int,
        ));
        assert(tail.subrange(9, 9 + name.len() as int) =~= name);
        assert(tail[9 + name.len() as int] == ' ');
        lemma_name_end(rule, message, cuts, name);
        let literal = part(message, cuts, 5);
        assert(piece_matches(pieces[5], literal));
        lemma_cuts_ascend(pieces, message, cuts, 5, 6);
        assert(literal.len() > 18 && literal[18] == 'f');
        assert(literal[18] == message[cuts[5] + 18]);
        assert(tail[9 + name.len() as int + 18] == 'u');
    }
}

/// A file name in which no colon has a space behind it.
pub open spec fn is_ordinary(file: Seq<char>) -> bool {
    &&& is_file(file)
    &&& forall|i: int|
        0 <= i < file.len() - 1 ==> !(#[trigger] file[i] == ':' && file[i + 1] == ' ')
}

/// The only colon with a space in a message with a line number.
proof fn lemma_only_colon_lined(file: Seq<char>, number: Seq<char>, rest: Seq<char>)
    requires
        are_digits(number),
        is_ordinary(file),
        is_tail(rest),
        rest.len() >= 5,
    ensures
        is_only_colon(
            file + ":"@ + number + rest,
            (file.len() + 1 + number.len()) as int,
        ),
        letters_behind(
            file + ":"@ + number + rest,
            (file.len() + 1 + number.len()) as int,
        ) == (rest[2], rest[3], rest[4]),
        (file + ":"@ + number + rest).subrange(
            (file.len() + 1 + number.len()) as int,
            (file.len() + 1 + number.len() + rest.len()) as int,
        ) == rest,
{
    reveal_strlit(":");
    let message = file + ":"@ + number + rest;
    let at = (file.len() + 1 + number.len()) as int;
    assert(message.subrange(at, at + rest.len()) =~= rest);
    assert forall|i: int|
        0 <= i < message.len() - 1 && #[trigger] message[i] == ':' && message[i + 1]
            == ' ' implies i == at by {
        if i < file.len() - 1 {
            assert(message[i] == file[i] && message[i + 1] == file[i + 1]);
        } else if i == file.len() - 1 {
            assert(message[i + 1] == ':');
        } else if i == file.len() {
            assert(message[i + 1] == number[0]);
        } else if i < at {
            assert(message[i] == number[i - file.len() - 1]);
        } else if i > at {
            assert(message[i] == rest[i - at]);
        }
    }
}

/// The only colon with a space in a message without a line number.
proof fn lemma_only_colon_unlined(file: Seq<char>, rest: Seq<char>)
    requires
        is_ordinary(file),
        is_tail(rest),
        rest.len() >= 5,
    ensures
        is_only_colon(file + rest, file.len() as int),
        letters_behind(file + rest, file.len() as int) == (rest[2], rest[3], rest[4]),
        (file + rest).subrange(file.len() as int, (file + rest).len() as int) == rest,
{
    let message = file + rest;
    let at = file.len() as int;
    assert(message.subrange(at, message.len() as int) =~= rest);
    assert forall|i: int|
        0 <= i < message.len() - 1 && #[trigger] message[i] == ':' && message[i + 1]
            == ' ' implies i == at by {
        if i < at - 1 {
            assert(message[i] == file[i] && message[i + 1] == file[i + 1]);
        } else if i == at - 1 {
            assert(message[i + 1] == ':');
        } else if i > at {
            assert(message[i] == rest[i - at]);
        }
    }
}

proof fn lemma_ordinary_undocumented(file: Seq<char>, number: Seq<char>, name: Seq<char>)
    requires
        are_digits(number),
        is_ordinary(file),
        is_word(name),
    ensures
        !is_claimed_earlier(Rule::FnUndocumented, fn_undocumented_text(file, number, name)),
{
    lemma_literals();
    lemma_word(name);
    reveal_strlit(" has no doc comment at all");
    let message = fn_undocumented_text(file, number, name);
    let rest = ": fn "@ + name + " has no doc comment at all"@;
    let at = (file.len() + 1 + number.len()) as int;
    assert(message =~= file + ":"@ + number + rest);
    lemma_only_colon_lined(file, number, rest);
    lemma_undocumented_is_not_missing(message, at, name);
    lemma_not_claimed(Rule::FnUndocumented, message, at);
}

proof fn lemma_ordinary_event_field(file: Seq<char>, number: Seq<char>, name: Seq<char>, field: Seq<char>)
    requires
        are_digits(number),
        is_ordinary(file),
        is_word(name),
        is_word(field),
    ensures
        !is_claimed_earlier(Rule::EventField, event_field_text(file, number, name, field)),
{
    lemma_literals();
    lemma_word(name);
    lemma_word(field);
    reveal_strlit(" missing docs for field ");
    let message = event_field_text(file, number, name, field);
    let rest = ": struct "@ + name + " missing docs for field "@ + field;
    assert(message =~= file + ":"@ + number + rest);
    lemma_only_colon_lined(file, number, rest);
    lemma_not_claimed(
        Rule::EventField,
        message,
        (file.len() + 1 + number.len()) as int,
    );
}

proof fn lemma_ordinary_event_unnamed_field(file: Seq<char>, name: Seq<char>, index: nat)
    requires
        is_ordinary(file),
        is_word(name),
    ensures
        !is_claimed_earlier(
            Rule::EventUnnamedField,
            event_unnamed_field_message(file, name, index),
        ),
{
    lemma_literals();
    lemma_word(name);
    lemma_decimal_digits(index);
    reveal_strlit(" missing docs for unnamed field ");
    let message = event_unnamed_field_message(file, name, index);
    let rest = ": struct "@ + name + " missing docs for unnamed field "@ + decimal(index);
    assert(message =~= file + rest);
    lemma_only_colon_unlined(file, rest);
    lemma_unnamed_is_not_named(message, file.len() as int, name, decimal(index));
    lemma_not_claimed(Rule::EventUnnamedField, message, file.len() as int);
}

proof fn lemma_ordinary_event_variant(
    file: Seq<char>,
    number: Seq<char>,
    name: Seq<char>,
    variant: Seq<char>,
)
    requires
        are_digits(number),
        is_ordinary(file),
        is_word(name),
        is_word(variant),
    ensures
        !is_claimed_earlier(Rule::EventVariant, event_variant_text(file, number, name, variant)),
{
    lemma_literals();
    lemma_word(name);
    lemma_word(variant);
    reveal_strlit(" missing docs for variant ");
    let message = event_variant_text(file, number, name, variant);
    let rest = ": enum "@ + name + " missing docs for variant "@ + variant;
    assert(message =~= file + ":"@ + number + rest);
    lemma_only_colon_lined(file, number, rest);
    lemma_not_claimed(
        Rule::EventVariant,
        message,
        (file.len() + 1 + number.len()) as int,
    );
}

proof fn lemma_ordinary_error_variant(
    file: Seq<char>,
    number: Seq<char>,
    name: Seq<char>,
    variant: Seq<char>,
)
    requires
        are_digits(number),
        is_ordinary(file),
        is_word(name),
        is_word(variant),
    ensures
        !is_claimed_earlier(Rule::ErrorVariant, error_variant_text(file, number, name, variant)),
{
    lemma_literals();
    lemma_word(name);
    lemma_word(variant);
    reveal_strlit(" has no doc comment");
    let message = error_variant_text(file, number, name, variant);
    let rest = ": error enum "@ + name + " variant "@ + variant + " has no doc comment"@;
    assert(message =~= file + ":"@ + number + rest);
    lemma_only_colon_lined(file, number, rest);
    lemma_not_claimed(
        Rule::ErrorVariant,
        message,
        (file.len() + 1 + number.len()) as int,
    );
}

proof fn lemma_ordinary_orphaned_doc(file: Seq<char>)
    requires
        is_ordinary(file),
    ensures
        !is_claimed_earlier(Rule::OrphanedDoc, orphaned_doc_message(file)),
{
    reveal_strlit(": orphaned doc - not reachable from README.md or any docs index file");
    let rest = ": orphaned doc - not reachable from README.md or any docs index file"@;
    lemma_only_colon_unlined(file, rest);
    lemma_not_claimed(Rule::OrphanedDoc, orphaned_doc_message(file), file.len() as int);
}

proof fn lemma_ordinary_stale_reference(file: Seq<char>, number: Seq<char>, name: Seq<char>)
    requires
        are_digits(number),
        is_ordinary(file),
        is_word(name),
    ensures
        !is_claimed_earlier(Rule::StaleRef, stale_ref_text(file, number, name)),
{
    lemma_word(name);
    reveal_strlit(": stale doc reference to `");
    reveal_strlit("` – no matching pub fn found in contracts");
    let message = stale_ref_text(file, number, name);
    let rest = ": stale doc reference to `"@ + name
        + "` – no matching pub fn found in contracts"@;
    assert(message =~= file + ":"@ + number + rest);
    lemma_only_colon_lined(file, number, rest);
    lemma_not_claimed(Rule::StaleRef, message, (file.len() + 1 + number.len()) as int);
}

/// For an ordinary path every kind of message has the identity of its own
/// rule, and no rule claims a message of another.
pub proof fn law_ordinary_messages_are_recognized(
    file: Seq<char>,
    number: Seq<char>,
    index: nat,
    name: Seq<char>,
    member: Seq<char>,
)
    requires
        are_digits(number),
        is_ordinary(file),
        is_word(name),
        is_word(member),
    ensures
        identity(fn_undocumented_text(file, number, name)) == Some(
            identity_text(Rule::FnUndocumented, file, name, Seq::empty()),
        ),
        identity(event_field_text(file, number, name, member)) == Some(
            identity_text(Rule::EventField, file, name, member),
        ),
        identity(event_unnamed_field_message(file, name, index)) == Some(
            identity_text(Rule::EventUnnamedField, file, name, decimal(index)),
        ),
        identity(event_variant_text(file, number, name, member)) == Some(
            identity_text(Rule::EventVariant, file, name, member),
        ),
        identity(error_variant_text(file, number, name, member)) == Some(
            identity_text(Rule::ErrorVariant, file, name, member),
        ),
        identity(orphaned_doc_message(file)) == Some(
            identity_text(Rule::OrphanedDoc, file, Seq::empty(), Seq::empty()),
        ),
        identity(stale_ref_text(file, number, name)) == Some(
            identity_text(Rule::StaleRef, file, name, Seq::empty()),
        ),
{
    lemma_ordinary_undocumented(file, number, name);
    law_identity_of_undocumented_function(file, number, name);
    lemma_ordinary_event_field(file, number, name, member);
    law_identity_of_event_field(file, number, name, member);
    lemma_ordinary_event_unnamed_field(file, name, index);
    law_identity_of_event_unnamed_field(file, name, index);
    lemma_ordinary_event_variant(file, number, name, member);
    law_identity_of_event_variant(file, number, name, member);
    lemma_ordinary_error_variant(file, number, name, member);
    law_identity_of_error_variant(file, number, name, member);
    lemma_ordinary_orphaned_doc(file);
    law_identity_of_orphaned_doc(file);
    lemma_ordinary_stale_reference(file, number, name);
    law_identity_of_stale_reference(file, number, name);
}

/// The line number of a message never shows in its identity: for an ordinary
/// path, whatever digits stand for the line, a message has the same identity.
pub proof fn law_line_number_never_shows(
    file: Seq<char>,
    number: Seq<char>,
    other: Seq<char>,
    name: Seq<char>,
    member: Seq<char>,
    sections: Seq<char>,
)
    requires
        is_ordinary(file),
        are_digits(number),
        are_digits(other),
        is_word(name),
        is_word(member),
        run_matches(Run::AnyPlus, sections),
        forall|i: int| 0 <= i < sections.len() ==> sections[i] != ':',
    ensures
        identity(fn_missing_text(file, number, name, sections)) is Some,
        identity(fn_missing_text(file, number, name, sections)) == identity(
            fn_missing_text(file, other, name, sections),
        ),
        identity(fn_undocumented_text(file, number, name)) is Some,
        identity(fn_undocumented_text(file, number, name)) == identity(
            fn_undocumented_text(file, other, name),
        ),
        identity(event_field_text(file, number, name, member)) is Some,
        identity(event_field_text(file, number, name, member)) == identity(
            event_field_text(file, other, name, member),
        ),
        identity(event_variant_text(file, number, name, member)) is Some,
        identity(event_variant_text(file, number, name, member)) == identity(
            event_variant_text(file, other, name, member),
        ),
        identity(error_variant_text(file, number, name, member)) is Some,
        identity(error_variant_text(file, number, name, member)) == identity(
            error_variant_text(file, other, name, member),
        ),
        identity(stale_ref_text(file, number, name)) is Some,
        identity(stale_ref_text(file, number, name)) == identity(
            stale_ref_text(file, other, name),
        ),
{
    law_identity_of_missing_sections(file, number, name, sections);
    law_identity_of_missing_sections(file, other, name, sections);
    law_ordinary_messages_are_recognized(file, number, 0, name, member);
    law_ordinary_messages_are_recognized(file, other, 0, name, member);
}

/// What a message says of its file shows in its identity in normal form only:
/// two spellings of a path that have the same form give the same identities.
pub proof fn law_identity_depends_on_file_form(
    file: Seq<char>,
    other: Seq<char>,
    number: Seq<char>,
    index: nat,
    name: Seq<char>,
    member: Seq<char>,
    sections: Seq<char>,
)
    requires
        are_digits(number),
        is_ordinary(file),
        is_ordinary(other),
        normalize_file(file) == normalize_file(other),
        is_word(name),
        is_word(member),
        run_matches(Run::AnyPlus, sections),
        forall|i: int| 0 <= i < sections.len() ==> sections[i] != ':',
    ensures
        identity(fn_missing_text(file, number, name, sections)) is Some,
        identity(fn_missing_text(file, number, name, sections)) == identity(
            fn_missing_text(other, number, name, sections),
        ),
        identity(fn_undocumented_text(file, number, name)) is Some,
        identity(fn_undocumented_text(file, number, name)) == identity(
            fn_undocumented_text(other, number, name),
        ),
        identity(event_field_text(file, number, name, member)) is Some,
        identity(event_field_text(file, number, name, member)) == identity(
            event_field_text(other, number, name, member),
        ),
        identity(event_unnamed_field_message(file, name, index)) is Some,
        identity(event_unnamed_field_message(file, name, index)) == identity(
            event_unnamed_field_message(other, name, index),
        ),
        identity(event_variant_text(file, number, name, member)) is Some,
        identity(event_variant_text(file, number, name, member)) == identity(
            event_variant_text(other, number, name, member),
        ),
        identity(error_variant_text(file, number, name, member)) is Some,
        identity(error_variant_text(file, number, name, member)) == identity(
            error_variant_text(other, number, name, member),
        ),
        identity(orphaned_doc_message(file)) is Some,
        identity(orphaned_doc_message(file)) == identity(orphaned_doc_message(other)),
        identity(stale_ref_text(file, number, name)) is Some,
        identity(stale_ref_text(file, number, name)) == identity(
            stale_ref_text(other, number, name),
        ),
{
    law_identity_of_missing_sections(file, number, name, sections);
    law_identity_of_missing_sections(other, number, name, sections);
    law_ordinary_messages_are_recognized(file, number, index, name, member);
    law_ordinary_messages_are_recognized(other, number, index, name, member);
}

/// A path stays ordinary however it is spelled.
proof fn lemma_ordinary_respelling(other: Seq<char>, file: Seq<char>, n: nat)
    requires
        is_ordinary(file),
        is_respelling(other, file, n),
    ensures
        is_ordinary(other),
{
    let front = parents(n);
    let path = front + file;
    lemma_parents(n);
    assert forall|i: int| 0 <= i < other.len() implies run_char(
        Run::AnyPlus,
        #[trigger] other[i],
    ) by {
        if i < front.len() {
            assert(path[i] == front[i]);
        } else {
            assert(path[i] == file[i - front.len()]);
            assert(run_char(Run::AnyPlus, file[i - front.len()]));
        }
    }
    assert forall|i: int| 0 <= i < other.len() - 1 implies !(#[trigger] other[i] == ':' && other[i
        + 1] == ' ') by {
        assert(other[i + 1] == path[i + 1] || other[i + 1] == '\\');
        if i < front.len() {
            assert(path[i] == front[i]);
        } else {
            assert(path[i] == file[i - front.len()]);
            assert(path[i + 1] == file[i - front.len() + 1]);
        }
    }
}

/// However a path is spelled, as seen from any directory below the root of
/// the repository and with slashes of either kind, its findings have the same
/// identities.
pub proof fn law_identity_ignores_path_spelling(
    file: Seq<char>,
    other: Seq<char>,
    n: nat,
    number: Seq<char>,
    index: nat,
    name: Seq<char>,
    member: Seq<char>,
    sections: Seq<char>,
)
    requires
        are_digits(number),
        is_ordinary(file),
        is_respelling(other, file, n),
        is_word(name),
        is_word(member),
        run_matches(Run::AnyPlus, sections),
        forall|i: int| 0 <= i < sections.len() ==> sections[i] != ':',
    ensures
        identity(fn_missing_text(other, number, name, sections)) == identity(
            fn_missing_text(file, number, name, sections),
        ),
        identity(fn_undocumented_text(other, number, name)) == identity(
            fn_undocumented_text(file, number, name),
        ),
        identity(event_field_text(other, number, name, member)) == identity(
            event_field_text(file, number, name, member),
        ),
        identity(event_unnamed_field_message(other, name, index)) == identity(
            event_unnamed_field_message(file, name, index),
        ),
        identity(event_variant_text(other, number, name, member)) == identity(
            event_variant_text(file, number, name, member),
        ),
        identity(error_variant_text(other, number, name, member)) == identity(
            error_variant_text(file, number, name, member),
        ),
        identity(orphaned_doc_message(other)) == identity(orphaned_doc_message(file)),
        identity(stale_ref_text(other, number, name)) == identity(
            stale_ref_text(file, number, name),
        ),
{
    lemma_ordinary_respelling(other, file, n);
    law_spellings_have_one_form(other, file, n);
    law_identity_depends_on_file_form(file, other, number, index, name, member, sections);
}

// ---------------------------------------------------------------------------
// Every message has an identity
// ---------------------------------------------------------------------------

/// A message that another rule claims has an identity all the same.
proof fn lemma_claimed_messages_are_known(rule: Rule, message: Seq<char>)
    requires
        is_claimed_earlier(rule, message),
    ensures
        identity(message) is Some,
{
    let other = choose|other: Rule|
        rule_place(other) < rule_place(rule) && #[trigger] matches_whole(
            rule_pieces(other),
            message,
        );
    lemma_some_rule_decides(message, other);
}

/// Whatever the file, as long as its name is not empty and on one line, every
/// kind of message has an identity. (Where the name holds a colon with a
/// space behind it, it may be that of another rule.)
pub proof fn law_every_message_is_known(
    file: Seq<char>,
    number: Seq<char>,
    index: nat,
    name: Seq<char>,
    member: Seq<char>,
)
    requires
        are_digits(number),
        is_file(file),
        is_word(name),
        is_word(member),
    ensures
        identity(fn_undocumented_text(file, number, name)) is Some,
        identity(event_field_text(file, number, name, member)) is Some,
        identity(event_unnamed_field_message(file, name, index)) is Some,
        identity(event_variant_text(file, number, name, member)) is Some,
        identity(error_variant_text(file, number, name, member)) is Some,
        identity(orphaned_doc_message(file)) is Some,
        identity(stale_ref_text(file, number, name)) is Some,
{
    let message = fn_undocumented_text(file, number, name);
    if is_claimed_earlier(Rule::FnUndocumented, message) {
        lemma_claimed_messages_are_known(Rule::FnUndocumented, message);
    } else {
        law_identity_of_undocumented_function(file, number, name);
    }
    let message = event_field_text(file, number, name, member);
    if is_claimed_earlier(Rule::EventField, message) {
        lemma_claimed_messages_are_known(Rule::EventField, message);
    } else {
        law_identity_of_event_field(file, number, name, member);
    }
    let message = event_unnamed_field_message(file, name, index);
    if is_claimed_earlier(Rule::EventUnnamedField, message) {
        lemma_claimed_messages_are_known(Rule::EventUnnamedField, message);
    } else {
        law_identity_of_event_unnamed_field(file, name, index);
    }
    let message = event_variant_text(file, number, name, member);
    if is_claimed_earlier(Rule::EventVariant, message) {
        lemma_claimed_messages_are_known(Rule::EventVariant, message);
    } else {
        law_identity_of_event_variant(file, number, name, member);
    }
    let message = error_variant_text(file, number, name, member);
    if is_claimed_earlier(Rule::ErrorVariant, message) {
        lemma_claimed_messages_are_known(Rule::ErrorVariant, message);
    } else {
        law_identity_of_error_variant(file, number, name, member);
    }
    let message = orphaned_doc_message(file);
    if is_claimed_earlier(Rule::OrphanedDoc, message) {
        lemma_claimed_messages_are_known(Rule::OrphanedDoc, message);
    } else {
        law_identity_of_orphaned_doc(file);
    }
    let message = stale_ref_text(file, number, name);
    if is_claimed_earlier(Rule::StaleRef, message) {
        lemma_claimed_messages_are_known(Rule::StaleRef, message);
    } else {
        law_identity_of_stale_reference(file, number, name);
    }
}

} // verus!
