//! Identities leave line numbers out.

use crate::findings::{
    error_variant_message, error_variant_text, event_field_message, event_field_text,
    event_variant_message, event_variant_text, fn_missing_message, fn_missing_text,
    fn_undocumented_message, fn_undocumented_text, stale_ref_message, stale_ref_text,
};
use crate::identity::{
    all_rules, captured, first_identity, held, identity, rule_identity, rule_pieces, Rule,
};
use crate::patterns::{
    comes_first, covers, fits, lemma_cuts_ascend, lemma_whole_match_unique, part, piece_matches,
    run_char, whole_match, Piece,
};
use crate::shape::{
    are_digits, is_delimiter, is_item, is_name, is_row, is_tail, item_a_index, item_b_index,
    keyword_index, lemma_groups, lemma_literals, lemma_shape, literal_text, run_of,
};
use crate::text::{decimal, lemma_decimal_digits, starts_with};
use vstd::prelude::*;

verus! {

/// Where a position goes when the `n` characters from `a` on are replaced by
/// `m` others.
spec fn moved(x: int, a: int, n: int, m: int) -> int {
    if x <= a {
        x
    } else {
        x + m - n
    }
}

/// Where the cuts of a match go.
spec fn all_moved(cuts: Seq<int>, a: int, n: int, m: int) -> Seq<int> {
    cuts.map_values(|x: int| moved(x, a, n, m))
}

/// No cut lies inside the `n` characters from `a` on.
spec fn keep_clear(cuts: Seq<int>, a: int, n: int) -> bool {
    forall|i: int| 0 <= i < cuts.len() ==> #[trigger] cuts[i] <= a || cuts[i] >= a + n
}

/// A match does not cut a number in two.
proof fn lemma_cuts_keep_clear(
    pieces: Seq<Piece>,
    front: Seq<char>,
    number: Seq<char>,
    rest: Seq<char>,
    cuts: Seq<int>,
)
    requires
        is_row(pieces),
        covers(pieces, front + number + rest, cuts),
        are_digits(number),
    ensures
        keep_clear(cuts, front.len() as int, number.len() as int),
{
    let message = front + number + rest;
    let a = front.len() as int;
    let n = number.len() as int;
    assert forall|i: int| 0 <= i < cuts.len() implies #[trigger] cuts[i] <= a || cuts[i] >= a
        + n by {
        if a < cuts[i] < a + n {
            assert(i > 0 && i < pieces.len());
            assert(message[cuts[i]] == number[cuts[i] - a]);
            assert(message[cuts[i] - 1] == number[cuts[i] - 1 - a]);
            let k = if i % 2 == 1 {
                i
            } else {
                i - 1
            };
            assert(k % 2 == 1);
            assert(pieces[k] is Literal);
            let text = literal_text(pieces[k]);
            assert(piece_matches(pieces[k], part(message, cuts, k)));
            assert(part(message, cuts, k) == text);
            if i % 2 == 1 {
                assert(part(message, cuts, k)[0] == message[cuts[i]]);
                assert(!('0' <= text[0] <= '9'));
            } else {
                let last = text.len() - 1;
                assert(part(message, cuts, k)[last] == message[cuts[i] - 1]);
                assert(!('0' <= text[last] <= '9'));
            }
        }
    }
}

/// A match stays a match when a number is replaced by another.
proof fn lemma_match_moves(
    pieces: Seq<Piece>,
    front: Seq<char>,
    number: Seq<char>,
    other: Seq<char>,
    rest: Seq<char>,
    cuts: Seq<int>,
)
    requires
        is_row(pieces),
        covers(pieces, front + number + rest, cuts),
        are_digits(number),
        are_digits(other),
    ensures
        covers(
            pieces,
            front + other + rest,
            all_moved(cuts, front.len() as int, number.len() as int, other.len() as int),
        ),
        keep_clear(cuts, front.len() as int, number.len() as int),
{
    lemma_cuts_keep_clear(pieces, front, number, rest, cuts);
    let message = front + number + rest;
    let changed = front + other + rest;
    let a = front.len() as int;
    let n = number.len() as int;
    let m = other.len() as int;
    let next = all_moved(cuts, a, n, m);
    assert(next[0] == 0);
    assert(next.last() == moved(cuts.last(), a, n, m));
    assert forall|i: int|
        #![trigger pieces[i]]
        #![trigger next[i]]
        0 <= i < pieces.len() implies 0 <= next[i] <= next[i + 1] <= changed.len()
        && piece_matches(pieces[i], part(changed, next, i)) by {
        let old_part = part(message, cuts, i);
        let new_part = part(changed, next, i);
        assert(piece_matches(pieces[i], old_part));
        assert(cuts[i] <= a || cuts[i] >= a + n);
        assert(cuts[i + 1] <= a || cuts[i + 1] >= a + n);
        if cuts[i + 1] <= a {
            assert(new_part =~= old_part);
        } else if cuts[i] >= a + n {
            assert(new_part =~= old_part);
        } else {
            let offset = a - cuts[i];
            if pieces[i] is Literal {
                assert(i % 2 == 1);
                assert(old_part[offset] == number[0]);
                assert(!('0' <= literal_text(pieces[i])[offset] <= '9'));
            } else {
                let run = run_of(pieces[i]);
                assert forall|k: int| 0 <= k < new_part.len() implies run_char(
                    run,
                    #[trigger] new_part[k],
                ) by {
                    if k < offset {
                        assert(new_part[k] == old_part[k]);
                    } else if k < offset + m {
                        assert(new_part[k] == other[k - offset]);
                    } else {
                        assert(new_part[k] == old_part[k - m + n]);
                    }
                }
            }
        }
    }
    assert(fits(pieces, changed, next));
}

/// Of two matches the same one comes first when a number is replaced.
proof fn lemma_order_moves(x: Seq<int>, y: Seq<int>, a: int, n: int, m: int)
    requires
        x.len() == y.len(),
        comes_first(x, y),
        keep_clear(x, a, n),
        keep_clear(y, a, n),
        n > 0,
        m > 0,
    ensures
        comes_first(all_moved(x, a, n, m), all_moved(y, a, n, m)),
{
    let k = choose|k: int|
        0 <= k < x.len() && x[k] > y[k] && forall|i: int| 0 <= i < k ==> #[trigger] x[i] == y[i];
    let p = all_moved(x, a, n, m);
    let q = all_moved(y, a, n, m);
    assert(x[k] <= a || x[k] >= a + n);
    assert(y[k] <= a || y[k] >= a + n);
    assert(p[k] > q[k]);
    assert forall|i: int| 0 <= i < k implies #[trigger] p[i] == q[i] by {
        assert(x[i] == y[i]);
    }
}

/// Moving there and back again changes nothing.
proof fn lemma_moves_back(cuts: Seq<int>, a: int, n: int, m: int)
    requires
        keep_clear(cuts, a, n),
        n > 0,
        m > 0,
    ensures
        all_moved(all_moved(cuts, a, n, m), a, m, n) == cuts,
        keep_clear(all_moved(cuts, a, n, m), a, m),
{
    let there = all_moved(cuts, a, n, m);
    assert forall|i: int| 0 <= i < cuts.len() implies #[trigger] all_moved(there, a, m, n)[i]
        == cuts[i] by {
        assert(cuts[i] <= a || cuts[i] >= a + n);
    }
    assert(all_moved(there, a, m, n) =~= cuts);
    assert forall|i: int| 0 <= i < there.len() implies #[trigger] there[i] <= a || there[i] >= a
        + m by {
        assert(cuts[i] <= a || cuts[i] >= a + n);
    }
}

/// The match of a rule stays its match when a number is replaced by another.
proof fn lemma_whole_match_moves(
    rule: Rule,
    front: Seq<char>,
    number: Seq<char>,
    other: Seq<char>,
    rest: Seq<char>,
    cuts: Seq<int>,
)
    requires
        whole_match(rule_pieces(rule), front + number + rest, cuts),
        are_digits(number),
        are_digits(other),
    ensures
        whole_match(
            rule_pieces(rule),
            front + other + rest,
            all_moved(cuts, front.len() as int, number.len() as int, other.len() as int),
        ),
        keep_clear(cuts, front.len() as int, number.len() as int),
{
    lemma_shape(rule);
    let pieces = rule_pieces(rule);
    let a = front.len() as int;
    let n = number.len() as int;
    let m = other.len() as int;
    let next = all_moved(cuts, a, n, m);
    lemma_match_moves(pieces, front, number, other, rest, cuts);
    assert forall|rival: Seq<int>| #[trigger]
        covers(pieces, front + other + rest, rival) implies rival == next || comes_first(
        next,
        rival,
    ) by {
        let back = all_moved(rival, a, m, n);
        lemma_match_moves(pieces, front, other, number, rest, rival);
        lemma_moves_back(rival, a, m, n);
        assert(covers(pieces, front + number + rest, back));
        if back != cuts {
            lemma_order_moves(cuts, back, a, n, m);
        }
    }
}

/// The file that a rule with line numbers finds in a message does not reach
/// beyond the last line number.
proof fn lemma_file_ends_before(
    rule: Rule,
    front: Seq<char>,
    number: Seq<char>,
    rest: Seq<char>,
    cuts: Seq<int>,
)
    requires
        covers(rule_pieces(rule), front + number + rest, cuts),
        are_digits(number),
        is_tail(rest),
        keyword_index(rule) == 1 ==> cuts[1] != front.len() + number.len(),
    ensures
        cuts[1] <= front.len(),
{
    lemma_shape(rule);
    lemma_literals();
    let pieces = rule_pieces(rule);
    let message = front + number + rest;
    let end = (front.len() + number.len()) as int;
    lemma_cuts_keep_clear(pieces, front, number, rest, cuts);
    if cuts[1] > front.len() {
        assert(piece_matches(pieces[1], part(message, cuts, 1)));
        assert(part(message, cuts, 1)[0] == message[cuts[1]]);
        assert(message[cuts[1]] == rest[cuts[1] - end]);
        assert(cuts[1] == end);
        assert(piece_matches(pieces[2], part(message, cuts, 2)));
        assert(cuts[2] == end + 1);
        assert(part(message, cuts, 2)[0] == rest[1]);
    }
}

/// An item does not reach over a number that has a colon in front of it.
proof fn lemma_item_avoids_number(
    pieces: Seq<Piece>,
    front: Seq<char>,
    number: Seq<char>,
    rest: Seq<char>,
    cuts: Seq<int>,
    i: int,
)
    requires
        is_row(pieces),
        is_item(pieces, i),
        covers(pieces, front + number + rest, cuts),
        are_digits(number),
        front.len() > 0,
        front.last() == ':',
    ensures
        cuts[i + 1] <= front.len() || cuts[i] >= front.len() + number.len(),
{
    let message = front + number + rest;
    let a = front.len() as int;
    lemma_cuts_keep_clear(pieces, front, number, rest, cuts);
    assert(cuts[i] <= a || cuts[i] >= a + number.len());
    assert(cuts[i + 1] <= a || cuts[i + 1] >= a + number.len());
    assert(piece_matches(pieces[i], part(message, cuts, i)));
    if cuts[i] < a < cuts[i + 1] {
        assert(part(message, cuts, i)[a - 1 - cuts[i]] == ':');
    } else if cuts[i] == a {
        assert((i - 1) % 2 == 1);
        assert(is_delimiter(literal_text(pieces[i - 1])));
        assert(piece_matches(pieces[i - 1], part(message, cuts, i - 1)));
        assert(part(message, cuts, i - 1).last() == message[a - 1]);
    }
}

/// A stretch on one side of a number stays as it was.
proof fn lemma_part_stays(
    front: Seq<char>,
    number: Seq<char>,
    other: Seq<char>,
    rest: Seq<char>,
    cuts: Seq<int>,
    i: int,
)
    requires
        0 <= i < cuts.len() - 1,
        0 <= cuts[i] <= cuts[i + 1] <= front.len() + number.len() + rest.len(),
        number.len() > 0,
        cuts[i + 1] <= front.len() || cuts[i] >= front.len() + number.len(),
    ensures
        part(front + number + rest, cuts, i) == part(
            front + other + rest,
            all_moved(cuts, front.len() as int, number.len() as int, other.len() as int),
            i,
        ),
{
    let next = all_moved(cuts, front.len() as int, number.len() as int, other.len() as int);
    assert(part(front + number + rest, cuts, i) =~= part(front + other + rest, next, i));
}

/// A rule gives the same identity to two messages that differ in the line
/// number only.
proof fn lemma_rule_ignores_number(
    rule: Rule,
    front: Seq<char>,
    number: Seq<char>,
    other: Seq<char>,
    rest: Seq<char>,
)
    requires
        are_digits(number),
        are_digits(other),
        front.len() > 0,
        front.last() == ':',
        is_tail(rest),
        keyword_index(rule) == 1 ==> forall|cuts: Seq<int>| #[trigger]
            covers(rule_pieces(rule), front + number + rest, cuts) ==> cuts[1] != front.len()
                + number.len(),
    ensures
        rule_identity(rule, front + number + rest) == rule_identity(rule, front + other + rest),
{
    let pieces = rule_pieces(rule);
    let before = front + number + rest;
    let after = front + other + rest;
    if captured(rule, before) is Some {
        let cuts = captured(rule, before)->0;
        let next = all_moved(cuts, front.len() as int, number.len() as int, other.len() as int);
        lemma_whole_match_moves(rule, front, number, other, rest, cuts);
        assert(whole_match(pieces, after, next));
        lemma_whole_match_unique(pieces, after, next, captured(rule, after)->0);
        lemma_same_identity(rule, front, number, other, rest, cuts);
    } else if captured(rule, after) is Some {
        let cuts = captured(rule, after)->0;
        lemma_whole_match_moves(rule, front, other, number, rest, cuts);
        assert(whole_match(
            pieces,
            before,
            all_moved(cuts, front.len() as int, other.len() as int, number.len() as int),
        ));
    }
}

/// The groups of a match that name the finding stay as they were.
proof fn lemma_same_identity(
    rule: Rule,
    front: Seq<char>,
    number: Seq<char>,
    other: Seq<char>,
    rest: Seq<char>,
    cuts: Seq<int>,
)
    requires
        covers(rule_pieces(rule), front + number + rest, cuts),
        are_digits(number),
        are_digits(other),
        front.len() > 0,
        front.last() == ':',
        is_tail(rest),
        keyword_index(rule) == 1 ==> cuts[1] != front.len() + number.len(),
    ensures
        ({
            let before = front + number + rest;
            let after = front + other + rest;
            let next = all_moved(
                cuts,
                front.len() as int,
                number.len() as int,
                other.len() as int,
            );
            &&& held(rule, before, cuts, "file"@) == held(rule, after, next, "file"@)
            &&& held(rule, before, cuts, "item_a"@) == held(rule, after, next, "item_a"@)
            &&& held(rule, before, cuts, "item_b"@) == held(rule, after, next, "item_b"@)
        }),
{
    let pieces = rule_pieces(rule);
    let before = front + number + rest;
    let after = front + other + rest;
    let next = all_moved(cuts, front.len() as int, number.len() as int, other.len() as int);
    lemma_shape(rule);
    lemma_match_moves(pieces, front, number, other, rest, cuts);
    lemma_groups(rule, before, cuts);
    lemma_groups(rule, after, next);
    lemma_file_ends_before(rule, front, number, rest, cuts);
    lemma_cuts_ascend(pieces, before, cuts, 0, 1);
    lemma_part_stays(front, number, other, rest, cuts, 0);
    if item_a_index(rule) is Some {
        let i = item_a_index(rule)->0;
        lemma_item_avoids_number(pieces, front, number, rest, cuts, i);
        lemma_cuts_ascend(pieces, before, cuts, i, i + 1);
        lemma_part_stays(front, number, other, rest, cuts, i);
    }
    if item_b_index(rule) is Some {
        let i = item_b_index(rule)->0;
        lemma_item_avoids_number(pieces, front, number, rest, cuts, i);
        lemma_cuts_ascend(pieces, before, cuts, i, i + 1);
        lemma_part_stays(front, number, other, rest, cuts, i);
    }
}

/// What all rules say the same of has the same identity.
proof fn lemma_same_first_identity(rules: Seq<Rule>, before: Seq<char>, after: Seq<char>)
    requires
        forall|rule: Rule| #[trigger] rule_identity(rule, before) == rule_identity(rule, after),
    ensures
        first_identity(rules, before) == first_identity(rules, after),
    decreases rules.len(),
{
    if rules.len() > 0 {
        assert(rule_identity(rules[0], before) == rule_identity(rules[0], after));
        lemma_same_first_identity(rules.drop_first(), before, after);
    }
}

/// The rules without line numbers do not take what stands in front of `rest`
/// for a file.
spec fn is_no_file_end(front: Seq<char>, rest: Seq<char>) -> bool {
    forall|rule: Rule, cuts: Seq<int>|
        keyword_index(rule) == 1 && #[trigger] covers(rule_pieces(rule), front + rest, cuts)
            ==> cuts[1] != front.len()
}

/// A message keeps its identity when its line number changes.
proof fn lemma_identity_ignores_number(
    file: Seq<char>,
    number: Seq<char>,
    other: Seq<char>,
    rest: Seq<char>,
)
    requires
        are_digits(number),
        are_digits(other),
        is_tail(rest),
        is_no_file_end(file + ":"@ + number, rest),
    ensures
        identity(file + ":"@ + number + rest) == identity(
            file + ":"@ + other + rest,
        ),
{
    reveal_strlit(":");
    let front = file + ":"@;
    assert forall|rule: Rule| #[trigger]
        rule_identity(rule, front + number + rest) == rule_identity(
            rule,
            front + other + rest,
        ) by {
        lemma_rule_ignores_number(rule, front, number, other, rest);
    }
    lemma_same_first_identity(all_rules(), front + number + rest, front + other + rest);
}

/// A literal that begins a match behind the file stands there.
proof fn lemma_literal_behind_file(
    rule: Rule,
    front: Seq<char>,
    rest: Seq<char>,
    cuts: Seq<int>,
)
    requires
        covers(rule_pieces(rule), front + rest, cuts),
        cuts[1] == front.len(),
    ensures
        starts_with(rest, literal_text(rule_pieces(rule)[1])),
        cuts[2] == front.len() + literal_text(rule_pieces(rule)[1]).len(),
{
    lemma_shape(rule);
    let pieces = rule_pieces(rule);
    let message = front + rest;
    let text = literal_text(pieces[1]);
    assert(piece_matches(pieces[1], part(message, cuts, 1)));
    assert(part(message, cuts, 1) == text);
    lemma_cuts_ascend(pieces, message, cuts, 1, 2);
    assert(rest.subrange(0, text.len() as int) =~= message.subrange(cuts[1], cuts[2]));
}

/// What follows the line number in a message about anything but a struct is
/// nothing that a rule without line numbers looks for.
proof fn lemma_other_keyword(front: Seq<char>, rest: Seq<char>)
    requires
        rest.len() >= 5,
        rest[2] != 's' || rest[4] != 'r',
        rest[2] != 'o',
    ensures
        is_no_file_end(front, rest),
{
    assert forall|rule: Rule, cuts: Seq<int>|
        keyword_index(rule) == 1 && #[trigger] covers(
            rule_pieces(rule),
            front + rest,
            cuts,
        ) implies cuts[1] != front.len() by {
        if cuts[1] == front.len() {
            lemma_literal_behind_file(rule, front, rest, cuts);
            let text = literal_text(rule_pieces(rule)[1]);
            lemma_literals();
            reveal_strlit(": orphaned doc - ");
            assert(rest.subrange(0, text.len() as int)[2] == text[2]);
            assert(rest.subrange(0, text.len() as int)[4] == text[4]);
        }
    }
}

/// What follows the line number in a message about a named field is nothing
/// that a rule without line numbers looks for.
proof fn lemma_named_field(front: Seq<char>, name: Seq<char>, field: Seq<char>)
    requires
        is_name(name),
    ensures
        is_no_file_end(front, ": struct "@ + name + " missing docs for field "@ + field),
{
    let rest = ": struct "@ + name + " missing docs for field "@ + field;
    lemma_literals();
    reveal_strlit(": orphaned doc - ");
    reveal_strlit(" missing docs for field ");
    reveal_strlit(" missing docs for unnamed field ");
    let message = front + rest;
    let a = front.len() as int;
    assert forall|rule: Rule, cuts: Seq<int>|
        keyword_index(rule) == 1 && #[trigger] covers(
            rule_pieces(rule),
            front + rest,
            cuts,
        ) implies cuts[1] != front.len() by {
        if cuts[1] == front.len() {
            lemma_literal_behind_file(rule, front, rest, cuts);
            let pieces = rule_pieces(rule);
            let text = literal_text(pieces[1]);
            assert(rest[2] == 's');
            assert(rest.subrange(0, text.len() as int)[2] == text[2]);
            assert(rule == Rule::EventUnnamedField);
            assert(cuts[2] == a + 9);
            assert(piece_matches(pieces[2], part(message, cuts, 2)));
            assert(piece_matches(pieces[3], part(message, cuts, 3)));
            lemma_cuts_ascend(pieces, message, cuts, 3, 4);
            let word = part(message, cuts, 2);
            let literal = part(message, cuts, 3);
            let end = a + 9 + name.len();
            assert(literal == " missing docs for unnamed field "@);
            assert(literal.len() > 18 && literal[18] == 'u');
            assert(message[end] == ' ');
            assert(literal[0] == message[cuts[3]]);
            if cuts[3] < end {
                assert(message[cuts[3]] == name[cuts[3] - a - 9]);
            } else if cuts[3] > end {
                assert(word[end - cuts[2]] == ' ');
            }
            assert(literal[18] == message[end + 18]);
            assert(message[end + 18] == 'f');
        }
    }
}

proof fn lemma_fn_missing_ignores_line(
    file: Seq<char>,
    number: Seq<char>,
    other: Seq<char>,
    name: Seq<char>,
    sections: Seq<char>,
)
    requires
        are_digits(number),
        are_digits(other),
        is_name(name),
        forall|i: int| 0 <= i < sections.len() ==> sections[i] != ':',
    ensures
        identity(fn_missing_text(file, number, name, sections)) == identity(
            fn_missing_text(file, other, name, sections),
        ),
{
    lemma_literals();
    let front = file + ":"@ + number;
    let rest = ": fn "@ + name + " missing "@ + sections;
    lemma_other_keyword(front, rest);
    lemma_identity_ignores_number(file, number, other, rest);
    assert(fn_missing_text(file, number, name, sections) =~= front + rest);
    assert(fn_missing_text(file, other, name, sections) =~= file + ":"@ + other + rest);
}

proof fn lemma_fn_undocumented_ignores_line(
    file: Seq<char>,
    number: Seq<char>,
    other: Seq<char>,
    name: Seq<char>,
)
    requires
        are_digits(number),
        are_digits(other),
        is_name(name),
    ensures
        identity(fn_undocumented_text(file, number, name)) == identity(
            fn_undocumented_text(file, other, name),
        ),
{
    lemma_literals();
    reveal_strlit(" has no doc comment at all");
    let front = file + ":"@ + number;
    let rest = ": fn "@ + name + " has no doc comment at all"@;
    lemma_other_keyword(front, rest);
    lemma_identity_ignores_number(file, number, other, rest);
    assert(fn_undocumented_text(file, number, name) =~= front + rest);
    assert(fn_undocumented_text(file, other, name) =~= file + ":"@ + other + rest);
}

proof fn lemma_event_field_ignores_line(
    file: Seq<char>,
    number: Seq<char>,
    other: Seq<char>,
    name: Seq<char>,
    member: Seq<char>,
)
    requires
        are_digits(number),
        are_digits(other),
        is_name(name),
        is_name(member),
    ensures
        identity(event_field_text(file, number, name, member)) == identity(
            event_field_text(file, other, name, member),
        ),
{
    lemma_literals();
    reveal_strlit(" missing docs for field ");
    let front = file + ":"@ + number;
    let rest = ": struct "@ + name + " missing docs for field "@ + member;
    lemma_named_field(front, name, member);
    lemma_identity_ignores_number(file, number, other, rest);
    assert(event_field_text(file, number, name, member) =~= front + rest);
    assert(event_field_text(file, other, name, member) =~= file + ":"@ + other + rest);
}

proof fn lemma_event_variant_ignores_line(
    file: Seq<char>,
    number: Seq<char>,
    other: Seq<char>,
    name: Seq<char>,
    member: Seq<char>,
)
    requires
        are_digits(number),
        are_digits(other),
        is_name(name),
        is_name(member),
    ensures
        identity(event_variant_text(file, number, name, member)) == identity(
            event_variant_text(file, other, name, member),
        ),
{
    lemma_literals();
    reveal_strlit(" missing docs for variant ");
    let front = file + ":"@ + number;
    let rest = ": enum "@ + name + " missing docs for variant "@ + member;
    lemma_other_keyword(front, rest);
    lemma_identity_ignores_number(file, number, other, rest);
    assert(event_variant_text(file, number, name, member) =~= front + rest);
    assert(event_variant_text(file, other, name, member) =~= file + ":"@ + other + rest);
}

proof fn lemma_error_variant_ignores_line(
    file: Seq<char>,
    number: Seq<char>,
    other: Seq<char>,
    name: Seq<char>,
    member: Seq<char>,
)
    requires
        are_digits(number),
        are_digits(other),
        is_name(name),
        is_name(member),
    ensures
        identity(error_variant_text(file, number, name, member)) == identity(
            error_variant_text(file, other, name, member),
        ),
{
    lemma_literals();
    reveal_strlit(" has no doc comment");
    let front = file + ":"@ + number;
    let rest = ": error enum "@ + name + " variant "@ + member + " has no doc comment"@;
    lemma_other_keyword(front, rest);
    lemma_identity_ignores_number(file, number, other, rest);
    assert(error_variant_text(file, number, name, member) =~= front + rest);
    assert(error_variant_text(file, other, name, member) =~= file + ":"@ + other + rest);
}

proof fn lemma_stale_ref_ignores_line(
    file: Seq<char>,
    number: Seq<char>,
    other: Seq<char>,
    name: Seq<char>,
)
    requires
        are_digits(number),
        are_digits(other),
        is_name(name),
    ensures
        identity(stale_ref_text(file, number, name)) == identity(
            stale_ref_text(file, other, name),
        ),
{
    lemma_literals();
    reveal_strlit(": stale doc reference to `");
    reveal_strlit("` – no matching pub fn found in contracts");
    let front = file + ":"@ + number;
    let rest = ": stale doc reference to `"@ + name
        + "` – no matching pub fn found in contracts"@;
    lemma_other_keyword(front, rest);
    lemma_identity_ignores_number(file, number, other, rest);
    assert(stale_ref_text(file, number, name) =~= front + rest);
    assert(stale_ref_text(file, other, name) =~= file + ":"@ + other + rest);
}

/// An identity does not depend on the digits of the line number, however they
/// are written: whatever the file, a message about the same item with another
/// number has the same one, or has none either.
pub proof fn law_identity_ignores_numerals(
    file: Seq<char>,
    number: Seq<char>,
    other: Seq<char>,
    name: Seq<char>,
    member: Seq<char>,
    sections: Seq<char>,
)
    requires
        are_digits(number),
        are_digits(other),
        is_name(name),
        is_name(member),
        forall|i: int| 0 <= i < sections.len() ==> sections[i] != ':',
    ensures
        identity(fn_missing_text(file, number, name, sections)) == identity(
            fn_missing_text(file, other, name, sections),
        ),
        identity(fn_undocumented_text(file, number, name)) == identity(
            fn_undocumented_text(file, other, name),
        ),
        identity(event_field_text(file, number, name, member)) == identity(
            event_field_text(file, other, name, member),
        ),
        identity(event_variant_text(file, number, name, member)) == identity(
            event_variant_text(file, other, name, member),
        ),
        identity(error_variant_text(file, number, name, member)) == identity(
            error_variant_text(file, other, name, member),
        ),
        identity(stale_ref_text(file, number, name)) == identity(
            stale_ref_text(file, other, name),
        ),
{
    lemma_fn_missing_ignores_line(file, number, other, name, sections);
    lemma_fn_undocumented_ignores_line(file, number, other, name);
    lemma_event_field_ignores_line(file, number, other, name, member);
    lemma_event_variant_ignores_line(file, number, other, name, member);
    lemma_error_variant_ignores_line(file, number, other, name, member);
    lemma_stale_ref_ignores_line(file, number, other, name);
}

/// An identity does not depend on the line number: whatever the file, a
/// message about the same item in another line has the same one, or has none
/// either.
pub proof fn law_identity_ignores_line_numbers(
    file: Seq<char>,
    line: nat,
    other: nat,
    name: Seq<char>,
    member: Seq<char>,
    sections: Seq<char>,
)
    requires
        is_name(name),
        is_name(member),
        forall|i: int| 0 <= i < sections.len() ==> sections[i] != ':',
    ensures
        identity(fn_missing_message(file, line, name, sections)) == identity(
            fn_missing_message(file, other, name, sections),
        ),
        identity(fn_undocumented_message(file, line, name)) == identity(
            fn_undocumented_message(file, other, name),
        ),
        identity(event_field_message(file, line, name, member)) == identity(
            event_field_message(file, other, name, member),
        ),
        identity(event_variant_message(file, line, name, member)) == identity(
            event_variant_message(file, other, name, member),
        ),
        identity(error_variant_message(file, line, name, member)) == identity(
            error_variant_message(file, other, name, member),
        ),
        identity(stale_ref_message(file, line, name)) == identity(
            stale_ref_message(file, other, name),
        ),
{
    lemma_decimal_digits(line);
    lemma_decimal_digits(other);
    law_identity_ignores_numerals(file, decimal(line), decimal(other), name, member, sections);
}

} // verus!
