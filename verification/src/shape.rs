//! The shape that the expressions for messages have in common, and of the
//! messages themselves.

use crate::identity::{held, rule_pieces, Rule};
use crate::patterns::{fits, group_text, part, Piece, Run};
use vstd::prelude::*;

verus! {

/// The text of a literal piece, empty for a run.
pub open spec fn literal_text(piece: Piece) -> Seq<char> {
    match piece {
        Piece::Literal(text) => text,
        _ => Seq::empty(),
    }
}

/// The run of a piece that is no literal.
pub open spec fn run_of(piece: Piece) -> Run {
    match piece {
        Piece::Literal(_) => Run::AnyStar,
        Piece::Plain(run) => run,
        Piece::Group(_, run) => run,
    }
}

/// The index of the piece that captures `item_a`.
pub open spec fn item_a_index(rule: Rule) -> Option<int> {
    match rule {
        Rule::EventUnnamedField => Some(2),
        Rule::OrphanedDoc => None,
        _ => Some(4),
    }
}

/// The index of the piece that captures `item_b`.
pub open spec fn item_b_index(rule: Rule) -> Option<int> {
    match rule {
        Rule::EventUnnamedField => Some(4),
        Rule::EventField | Rule::EventVariant | Rule::ErrorVariant => Some(6),
        _ => None,
    }
}

/// The index of the literal that begins with a colon and a space.
pub open spec fn keyword_index(rule: Rule) -> int {
    match rule {
        Rule::EventUnnamedField | Rule::OrphanedDoc => 1,
        _ => 3,
    }
}

/// Literals stand at odd places and runs at even ones. A literal holds no
/// digit and begins with a character that no number or name holds.
pub open spec fn is_row(pieces: Seq<Piece>) -> bool {
    &&& pieces.len() >= 3
    &&& forall|i: int| 0 <= i < pieces.len() ==> (i % 2 == 1 <==> (#[trigger] pieces[i]) is Literal)
    &&& forall|i: int|
        0 <= i < pieces.len() && i % 2 == 1 ==> is_delimiter(literal_text(#[trigger] pieces[i]))
    &&& forall|i: int|
        0 <= i < pieces.len() && i % 2 == 0 ==> {
            let run = run_of(#[trigger] pieces[i]);
            ||| run is AnyPlus && (i == 0 || i == pieces.len() - 1)
            ||| run is AnyStar && i == pieces.len() - 1
            ||| run is Digits
            ||| run is Word
        }
}

/// A text without digits that begins with a character that no number or name
/// holds.
pub open spec fn is_delimiter(text: Seq<char>) -> bool {
    &&& text.len() > 0
    &&& text[0] == ':' || text[0] == ' ' || text[0] == '`'
    &&& forall|k: int| 0 <= k < text.len() ==> !('0' <= #[trigger] text[k] <= '9')
}

/// The pieces of a rule are such a row. They begin with the file, and have
/// one literal that begins with a colon and a space.
pub open spec fn has_shape(rule: Rule) -> bool {
    let pieces = rule_pieces(rule);
    &&& is_row(pieces)
    &&& keyword_index(rule) < pieces.len()
    &&& pieces[0] == Piece::Group("file"@, Run::AnyPlus)
    &&& literal_text(pieces[1])[0] == ':'
    &&& keyword_index(rule) == 3 ==> pieces[1] == Piece::Literal(":"@) && run_of(
        pieces[2],
    ) is Digits
    &&& literal_text(pieces[keyword_index(rule)]).len() >= 2
    &&& literal_text(pieces[keyword_index(rule)])[0] == ':'
    &&& literal_text(pieces[keyword_index(rule)])[1] == ' '
    &&& item_a_index(rule) is Some ==> is_item(pieces, item_a_index(rule)->0)
    &&& item_b_index(rule) is Some ==> is_item(pieces, item_b_index(rule)->0)
}

/// Piece `i` is a name or a number, and the literal in front of it does not
/// end with a colon.
pub open spec fn is_item(pieces: Seq<Piece>, i: int) -> bool {
    &&& 2 <= i < pieces.len() && i % 2 == 0
    &&& run_of(pieces[i]) is Word || run_of(pieces[i]) is Digits
    &&& literal_text(pieces[i - 1]).last() != ':'
}

pub proof fn lemma_literals()
    ensures
        ":"@ =~= seq![':'],
        ": fn "@ =~= seq![':', ' ', 'f', 'n', ' '],
        ": struct "@ =~= seq![':', ' ', 's', 't', 'r', 'u', 'c', 't', ' '],
        ": enum "@ =~= seq![':', ' ', 'e', 'n', 'u', 'm', ' '],
        ": error enum "@ =~= seq![':', ' ', 'e', 'r', 'r', 'o', 'r', ' ', 'e', 'n', 'u', 'm', ' '],
        " missing "@ =~= seq![' ', 'm', 'i', 's', 's', 'i', 'n', 'g', ' '],
        " variant "@ =~= seq![' ', 'v', 'a', 'r', 'i', 'a', 'n', 't', ' '],
        "` "@ =~= seq!['`', ' '],
{
    reveal_strlit(":");
    reveal_strlit(": fn ");
    reveal_strlit(": struct ");
    reveal_strlit(": enum ");
    reveal_strlit(": error enum ");
    reveal_strlit(" missing ");
    reveal_strlit(" variant ");
    reveal_strlit("` ");
}

pub proof fn lemma_shape(rule: Rule)
    ensures
        has_shape(rule),
{
    lemma_literals();
    match rule {
        Rule::FnMissingSections => {},
        Rule::FnUndocumented => {
            reveal_strlit(" has no doc comment at all");
        },
        Rule::EventField => {
            reveal_strlit(" missing docs for field ");
        },
        Rule::EventUnnamedField => {
            reveal_strlit(" missing docs for unnamed field ");
        },
        Rule::EventVariant => {
            reveal_strlit(" missing docs for variant ");
        },
        Rule::ErrorVariant => {
            reveal_strlit(" has no doc comment");
        },
        Rule::OrphanedDoc => {
            reveal_strlit(": orphaned doc - ");
        },
        Rule::StaleRef => {
            reveal_strlit(": stale doc reference to `");
        },
    }
}

/// Where the groups of a match stand.
pub proof fn lemma_groups(rule: Rule, message: Seq<char>, cuts: Seq<int>)
    requires
        fits(rule_pieces(rule), message, cuts),
    ensures
        held(rule, message, cuts, "file"@) == part(message, cuts, 0),
        held(rule, message, cuts, "item_a"@) == (match item_a_index(rule) {
            Some(i) => part(message, cuts, i),
            None => Seq::empty(),
        }),
        held(rule, message, cuts, "item_b"@) == (match item_b_index(rule) {
            Some(i) => part(message, cuts, i),
            None => Seq::empty(),
        }),
{
    reveal_strlit("file");
    reveal_strlit("line");
    reveal_strlit("item_a");
    reveal_strlit("item_b");
    assert("item_a"@[5] == 'a' && "item_b"@[5] == 'b');
    assert("file"@.len() == 4 && "line"@.len() == 4 && "item_a"@.len() == 6 && "item_b"@.len() == 6);
    assert("item_a"@ != "item_b"@);
    let pieces = rule_pieces(rule);
    lemma_group_text(pieces, message, cuts, "file"@, 0);
    match item_a_index(rule) {
        Some(i) => lemma_group_text(pieces, message, cuts, "item_a"@, i),
        None => lemma_no_group(pieces, message, cuts, "item_a"@),
    }
    match item_b_index(rule) {
        Some(i) => lemma_group_text(pieces, message, cuts, "item_b"@, i),
        None => lemma_no_group(pieces, message, cuts, "item_b"@),
    }
}

/// A group that is the first of its name holds the text of its piece.
pub proof fn lemma_group_text(
    pieces: Seq<Piece>,
    message: Seq<char>,
    cuts: Seq<int>,
    name: Seq<char>,
    i: int,
)
    requires
        0 <= i < pieces.len(),
        cuts.len() == pieces.len() + 1,
        pieces[i] is Group && pieces[i]->Group_0 == name,
        forall|k: int|
            0 <= k < i ==> !((#[trigger] pieces[k]) is Group && pieces[k]->Group_0 == name),
    ensures
        group_text(pieces, message, cuts, name) == Some(part(message, cuts, i)),
    decreases i,
{
    if i > 0 {
        let rest = pieces.drop_first();
        assert(rest[i - 1] == pieces[i]);
        assert forall|k: int| 0 <= k < i - 1 implies !((#[trigger] rest[k]) is Group
            && rest[k]->Group_0 == name) by {
            assert(rest[k] == pieces[k + 1]);
        }
        lemma_group_text(rest, message, cuts.drop_first(), name, i - 1);
        assert(!(pieces[0] is Group && pieces[0]->Group_0 == name));
        assert(part(message, cuts.drop_first(), i - 1) == part(message, cuts, i));
    }
}

/// A name that no group has captures nothing.
pub proof fn lemma_no_group(
    pieces: Seq<Piece>,
    message: Seq<char>,
    cuts: Seq<int>,
    name: Seq<char>,
)
    requires
        forall|k: int|
            0 <= k < pieces.len() ==> !((#[trigger] pieces[k]) is Group && pieces[k]->Group_0
                == name),
    ensures
        group_text(pieces, message, cuts, name) is None,
    decreases pieces.len(),
{
    if pieces.len() > 0 {
        let rest = pieces.drop_first();
        assert forall|k: int| 0 <= k < rest.len() implies !((#[trigger] rest[k]) is Group
            && rest[k]->Group_0 == name) by {
            assert(rest[k] == pieces[k + 1]);
        }
        assert(!(pieces[0] is Group && pieces[0]->Group_0 == name));
        lemma_no_group(rest, message, cuts.drop_first(), name);
    }
}

// ---------------------------------------------------------------------------
// The parts of messages
// ---------------------------------------------------------------------------

/// One or more of the ten digits.
pub open spec fn are_digits(text: Seq<char>) -> bool {
    &&& text.len() > 0
    &&& forall|i: int| 0 <= i < text.len() ==> '0' <= #[trigger] text[i] <= '9'
}

/// What follows the line number of a message: a colon and a space, and no
/// other colon.
pub open spec fn is_tail(rest: Seq<char>) -> bool {
    &&& rest.len() >= 2
    &&& rest[0] == ':'
    &&& rest[1] == ' '
    &&& forall|k: int| 0 < k < rest.len() ==> #[trigger] rest[k] != ':'
}

/// A text without the characters that end a name in a message.
pub open spec fn is_name(text: Seq<char>) -> bool {
    forall|i: int| 0 <= i < text.len() ==> #[trigger] text[i] != ':' && text[i] != ' '
}

} // verus!
