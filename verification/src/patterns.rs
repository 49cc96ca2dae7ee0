//! The regular expressions of the checker and what they match.
//!
//! Every expression here is a row of *pieces*: literal text, and greedy runs
//! of characters of one kind, some of them captured. A match is described by
//! its *cuts*: the position at which each piece begins, and the position at
//! which the last one ends.

use crate::text::{is_white_space, opt_view, views};
use vstd::prelude::*;

verus! {

// ---------------------------------------------------------------------------
// The expressions
// ---------------------------------------------------------------------------

/// `{file}:{line}: fn {name} missing {parts}`
pub const FN_MISSING_SECTIONS: &'static str =
    r"^(?P<file>.+):(?P<line>\d+): fn (?P<item_a>\w+) missing .+$";

/// `{file}:{line}: fn {name} has no doc comment at all`
pub const FN_UNDOCUMENTED: &'static str =
    r"^(?P<file>.+):(?P<line>\d+): fn (?P<item_a>\w+) has no doc comment at all$";

/// `{file}:{line}: struct {S} missing docs for field {f}`
pub const EVENT_FIELD: &'static str =
    r"^(?P<file>.+):(?P<line>\d+): struct (?P<item_a>\w+) missing docs for field (?P<item_b>\w+)$";

/// `{file}: struct {S} missing docs for unnamed field {i}` (no line number)
pub const EVENT_UNNAMED_FIELD: &'static str =
    r"^(?P<file>.+): struct (?P<item_a>\w+) missing docs for unnamed field (?P<item_b>\d+)$";

/// `{file}:{line}: enum {E} missing docs for variant {V}`
pub const EVENT_VARIANT: &'static str =
    r"^(?P<file>.+):(?P<line>\d+): enum (?P<item_a>\w+) missing docs for variant (?P<item_b>\w+)$";

/// `{file}:{line}: error enum {E} variant {V} has no doc comment`
pub const ERROR_VARIANT: &'static str =
    r"^(?P<file>.+):(?P<line>\d+): error enum (?P<item_a>\w+) variant (?P<item_b>\w+) has no doc comment$";

/// `{file}: orphaned doc - not reachable from README.md or any docs index file`
pub const ORPHANED_DOC: &'static str = r"^(?P<file>.+): orphaned doc - .*$";

/// ``{file}:{line}: stale doc reference to `{fn}` – no matching pub fn found in contracts``
pub const STALE_REF: &'static str =
    r"^(?P<file>.+):(?P<line>\d+): stale doc reference to `(?P<item_a>\w+)` .*$";

/// A snake_case identifier between backticks.
pub const BACKTICK_REFERENCE: &'static str = r"`([a-z_][a-z0-9_]*)`";

/// The name of a public function.
pub const PUBLIC_FUNCTION: &'static str = r"pub\s+fn\s+(\w+)";

/// The expressions that are held against a whole message.
pub open spec fn is_message_pattern(pattern: Seq<char>) -> bool {
    ||| pattern == FN_MISSING_SECTIONS@
    ||| pattern == FN_UNDOCUMENTED@
    ||| pattern == EVENT_FIELD@
    ||| pattern == EVENT_UNNAMED_FIELD@
    ||| pattern == EVENT_VARIANT@
    ||| pattern == ERROR_VARIANT@
    ||| pattern == ORPHANED_DOC@
    ||| pattern == STALE_REF@
}

/// The expressions that are searched for in a text.
pub open spec fn is_search_pattern(pattern: Seq<char>) -> bool {
    pattern == BACKTICK_REFERENCE@ || pattern == PUBLIC_FUNCTION@
}

// ---------------------------------------------------------------------------
// Pieces and their syntax
// ---------------------------------------------------------------------------

/// A greedy run of characters.
pub enum Run {
    /// `.+`: one or more characters other than a line feed.
    AnyPlus,
    /// `.*`: any number of characters other than a line feed.
    AnyStar,
    /// `\d+`: one or more digits.
    Digits,
    /// `\w+`: one or more word characters.
    Word,
    /// `\s+`: one or more white space characters.
    Spaces,
    /// `[a-z_][a-z0-9_]*`: a snake_case identifier.
    Snake,
}

/// One piece of an expression.
pub enum Piece {
    /// Text that stands for itself.
    Literal(Seq<char>),
    /// A run that is not captured.
    Plain(Run),
    /// A run captured under a name; a group without one has the empty name.
    Group(Seq<char>, Run),
}

/// How a run is written.
pub open spec fn run_syntax(run: Run) -> Seq<char> {
    match run {
        Run::AnyPlus => ".+"@,
        Run::AnyStar => ".*"@,
        Run::Digits => r"\d+"@,
        Run::Word => r"\w+"@,
        Run::Spaces => r"\s+"@,
        Run::Snake => "[a-z_][a-z0-9_]*"@,
    }
}

/// How a piece is written.
pub open spec fn piece_syntax(piece: Piece) -> Seq<char> {
    match piece {
        Piece::Literal(text) => text,
        Piece::Plain(run) => run_syntax(run),
        Piece::Group(name, run) => if name.len() == 0 {
            "("@ + run_syntax(run) + ")"@
        } else {
            "(?P<"@ + name + ">"@ + run_syntax(run) + ")"@
        },
    }
}

/// How a row of pieces is written.
pub open spec fn syntax(pieces: Seq<Piece>) -> Seq<char>
    decreases pieces.len(),
{
    if pieces.len() == 0 {
        Seq::empty()
    } else {
        piece_syntax(pieces[0]) + syntax(pieces.drop_first())
    }
}

/// How a row of pieces is written that has to match a whole text.
pub open spec fn anchored_syntax(pieces: Seq<Piece>) -> Seq<char> {
    "^"@ + syntax(pieces) + "$"@
}

/// A character that stands for itself in an expression.
pub open spec fn is_plain_char(c: char) -> bool {
    ||| 'a' <= c <= 'z'
    ||| 'A' <= c <= 'Z'
    ||| c == ' '
    ||| c == ':'
    ||| c == '-'
    ||| c == '_'
    ||| c == '`'
}

/// Every character of `text` stands for itself in an expression.
pub open spec fn is_plain_text(text: Seq<char>) -> bool {
    forall|i: int| 0 <= i < text.len() ==> is_plain_char(#[trigger] text[i])
}

/// The literal text and the group names of `pieces` stand for themselves.
pub open spec fn is_plain(pieces: Seq<Piece>) -> bool {
    forall|i: int|
        0 <= i < pieces.len() ==> match #[trigger] pieces[i] {
            Piece::Literal(text) => is_plain_text(text),
            Piece::Plain(_) => true,
            Piece::Group(name, _) => is_plain_text(name),
        }
}

// ---------------------------------------------------------------------------
// What pieces match
// ---------------------------------------------------------------------------

/// Whether `\d` matches a character outside ASCII: one of the Unicode
/// category `Nd`.
pub uninterp spec fn unicode_digit(c: char) -> bool;

/// Whether `\w` matches a character outside ASCII: one with the Unicode
/// property `Alphabetic` or `Join_Control`, or of category `M`, `Nd` or `Pc`.
pub uninterp spec fn unicode_word(c: char) -> bool;

/// The characters that `\d` matches.
pub open spec fn is_digit(c: char) -> bool {
    if c <= '\u{7f}' {
        '0' <= c <= '9'
    } else {
        unicode_digit(c)
    }
}

/// The characters that `\w` matches.
pub open spec fn is_word_char(c: char) -> bool {
    if c <= '\u{7f}' {
        'a' <= c <= 'z' || 'A' <= c <= 'Z' || '0' <= c <= '9' || c == '_'
    } else {
        unicode_word(c)
    }
}

/// The characters that `[a-z_]` matches.
pub open spec fn is_snake_start(c: char) -> bool {
    'a' <= c <= 'z' || c == '_'
}

/// The characters that `[a-z0-9_]` matches.
pub open spec fn is_snake_char(c: char) -> bool {
    'a' <= c <= 'z' || '0' <= c <= '9' || c == '_'
}

/// The characters that a run may hold.
pub open spec fn run_char(run: Run, c: char) -> bool {
    match run {
        Run::AnyPlus => c != '\n',
        Run::AnyStar => c != '\n',
        Run::Digits => is_digit(c),
        Run::Word => is_word_char(c),
        Run::Spaces => is_white_space(c),
        Run::Snake => is_snake_char(c),
    }
}

/// Whether a run matches all of `part`.
pub open spec fn run_matches(run: Run, part: Seq<char>) -> bool {
    &&& run is AnyStar || part.len() > 0
    &&& run is Snake ==> is_snake_start(part[0])
    &&& forall|i: int| 0 <= i < part.len() ==> run_char(run, #[trigger] part[i])
}

/// Whether a piece matches all of `part`.
pub open spec fn piece_matches(piece: Piece, part: Seq<char>) -> bool {
    match piece {
        Piece::Literal(text) => part == text,
        Piece::Plain(run) => run_matches(run, part),
        Piece::Group(_, run) => run_matches(run, part),
    }
}

/// The stretch of `text` that belongs to piece `i`.
pub open spec fn part(text: Seq<char>, cuts: Seq<int>, i: int) -> Seq<char> {
    text.subrange(cuts[i], cuts[i + 1])
}

/// `cuts` is a way in which `pieces` match a stretch of `text`.
pub open spec fn fits(pieces: Seq<Piece>, text: Seq<char>, cuts: Seq<int>) -> bool {
    &&& cuts.len() == pieces.len() + 1
    &&& forall|i: int|
        0 <= i < pieces.len() ==> 0 <= cuts[i] <= cuts[i + 1] <= text.len() && piece_matches(
            #[trigger] pieces[i],
            part(text, cuts, i),
        )
}

/// `cuts` is a way in which `pieces` match all of `text`.
pub open spec fn covers(pieces: Seq<Piece>, text: Seq<char>, cuts: Seq<int>) -> bool {
    fits(pieces, text, cuts) && cuts[0] == 0 && cuts.last() == text.len()
}

/// Greedy runs: of two ways to match, the one whose first piece of a
/// different length is the longer one comes first.
pub open spec fn comes_first(a: Seq<int>, b: Seq<int>) -> bool {
    exists|k: int|
        0 <= k < a.len() && a[k] > b[k] && forall|i: int| 0 <= i < k ==> #[trigger] a[i] == b[i]
}

/// The match of `pieces` with all of `text`.
pub open spec fn whole_match(pieces: Seq<Piece>, text: Seq<char>, cuts: Seq<int>) -> bool {
    &&& covers(pieces, text, cuts)
    &&& forall|other: Seq<int>| #[trigger]
        covers(pieces, text, other) ==> other == cuts || comes_first(cuts, other)
}

/// The leftmost match of `pieces` in `text` that begins at or after `from`.
pub open spec fn next_match(
    pieces: Seq<Piece>,
    text: Seq<char>,
    from: int,
    cuts: Seq<int>,
) -> bool {
    &&& fits(pieces, text, cuts)
    &&& from <= cuts[0]
    &&& forall|other: Seq<int>| #[trigger]
        fits(pieces, text, other) && from <= other[0] ==> {
            ||| cuts[0] < other[0]
            ||| cuts[0] == other[0] && (other == cuts || comes_first(cuts, other))
        }
}

/// `hits` are the successive matches of `pieces` in `text` from `from` on:
/// each is the leftmost one that begins where the one before it ended, or
/// later, and none follows the last.
pub open spec fn all_matches(
    pieces: Seq<Piece>,
    text: Seq<char>,
    from: int,
    hits: Seq<Seq<int>>,
) -> bool
    decreases hits.len(),
{
    if hits.len() == 0 {
        forall|cuts: Seq<int>| #[trigger] fits(pieces, text, cuts) ==> cuts[0] < from
    } else {
        &&& next_match(pieces, text, from, hits[0])
        &&& all_matches(pieces, text, hits[0].last(), hits.drop_first())
    }
}

/// What the group called `name` holds of a match, if there is such a group.
pub open spec fn group_text(
    pieces: Seq<Piece>,
    text: Seq<char>,
    cuts: Seq<int>,
    name: Seq<char>,
) -> Option<Seq<char>>
    decreases pieces.len(),
{
    if pieces.len() == 0 {
        None
    } else if pieces[0] matches Piece::Group(own, _) && own == name {
        Some(part(text, cuts, 0))
    } else {
        group_text(pieces.drop_first(), text, cuts.drop_first(), name)
    }
}

/// `pieces` can be made to match all of `text`.
pub open spec fn matches_whole(pieces: Seq<Piece>, text: Seq<char>) -> bool {
    exists|cuts: Seq<int>| covers(pieces, text, cuts)
}

/// `groups` is what the groups called `names` hold of the match of `pieces`
/// with all of `text`.
pub open spec fn are_group_texts(
    pieces: Seq<Piece>,
    text: Seq<char>,
    names: Seq<Seq<char>>,
    groups: Seq<Option<Seq<char>>>,
) -> bool {
    exists|cuts: Seq<int>| #[trigger]
        whole_match(pieces, text, cuts) && groups == names.map_values(
            |name: Seq<char>| group_text(pieces, text, cuts, name),
        )
}

/// `groups` is what the unnamed group holds of each match of `pieces` in
/// `text`, in order.
pub open spec fn are_first_groups(
    pieces: Seq<Piece>,
    text: Seq<char>,
    groups: Seq<Seq<char>>,
) -> bool {
    exists|hits: Seq<Seq<int>>| #[trigger]
        all_matches(pieces, text, 0, hits) && groups == hits.map_values(
            |cuts: Seq<int>| group_text(pieces, text, cuts, Seq::empty())->0,
        )
}

// ---------------------------------------------------------------------------
// Matches exist and are unique
// ---------------------------------------------------------------------------

/// Every cut of a match lies in the text, and they ascend.
pub proof fn lemma_cuts_ascend(pieces: Seq<Piece>, text: Seq<char>, cuts: Seq<int>, i: int, j: int)
    requires
        fits(pieces, text, cuts),
        pieces.len() > 0,
        0 <= i <= j < cuts.len(),
    ensures
        0 <= cuts[i] <= cuts[j] <= text.len(),
    decreases j - i,
{
    if i < j {
        assert(piece_matches(pieces[i], part(text, cuts, i)));
        lemma_cuts_ascend(pieces, text, cuts, i + 1, j);
    } else if i < pieces.len() {
        assert(piece_matches(pieces[i], part(text, cuts, i)));
    } else {
        assert(piece_matches(pieces[i - 1], part(text, cuts, i - 1)));
    }
}

/// Among ways to match that begin at one position, one comes first.
proof fn lemma_first_way(
    pieces: Seq<Piece>,
    text: Seq<char>,
    ways: spec_fn(Seq<int>) -> bool,
    best: Seq<int>,
    k: int,
) -> (first: Seq<int>)
    requires
        pieces.len() > 0,
        ways(best),
        forall|other: Seq<int>| #[trigger] ways(other) ==> fits(pieces, text, other),
        0 <= k <= pieces.len() + 1,
        forall|other: Seq<int>| #[trigger]
            ways(other) ==> comes_first(best, other) || forall|i: int|
                0 <= i < k ==> #[trigger] best[i] == other[i],
    ensures
        ways(first),
        forall|other: Seq<int>| #[trigger]
            ways(other) ==> other == first || comes_first(first, other),
    decreases pieces.len() + 1 - k, text.len() - best[k],
{
    if k == pieces.len() + 1 {
        assert forall|other: Seq<int>| #[trigger] ways(other) implies other == best || comes_first(
            best,
            other,
        ) by {
            if !comes_first(best, other) {
                assert(fits(pieces, text, best) && fits(pieces, text, other));
                assert(best =~= other);
            }
        }
        best
    } else if exists|other: Seq<int>| #[trigger]
        ways(other) && other[k] > best[k] && !comes_first(best, other) {
        let other = choose|other: Seq<int>| #[trigger]
            ways(other) && other[k] > best[k] && !comes_first(best, other);
        assert(fits(pieces, text, best) && fits(pieces, text, other));
        lemma_cuts_ascend(pieces, text, best, k, k);
        lemma_cuts_ascend(pieces, text, other, k, k);
        assert forall|third: Seq<int>| #[trigger] ways(third) implies comes_first(other, third)
            || forall|i: int| 0 <= i < k ==> #[trigger] other[i] == third[i] by {
            if comes_first(best, third) {
                let m = choose|m: int|
                    0 <= m < best.len() && best[m] > third[m] && forall|i: int|
                        0 <= i < m ==> #[trigger] best[i] == third[i];
                assert(fits(pieces, text, third));
                if m <= k {
                    assert(other[m] > third[m]);
                    assert(forall|i: int| 0 <= i < m ==> #[trigger] other[i] == third[i]);
                } else {
                    assert(other[k] > third[k]);
                    assert(forall|i: int| 0 <= i < k ==> #[trigger] other[i] == third[i]);
                }
            }
        }
        lemma_first_way(pieces, text, ways, other, k)
    } else {
        assert forall|other: Seq<int>| #[trigger] ways(other) implies comes_first(best, other)
            || forall|i: int| 0 <= i < k + 1 ==> #[trigger] best[i] == other[i] by {
            if !comes_first(best, other) {
                assert(fits(pieces, text, best) && fits(pieces, text, other));
                if best[k] > other[k] {
                    assert(comes_first(best, other));
                }
            }
        }
        lemma_first_way(pieces, text, ways, best, k + 1)
    }
}

/// Pieces that can be made to match all of a text have a match with it.
pub proof fn lemma_whole_match_exists(pieces: Seq<Piece>, text: Seq<char>)
    requires
        pieces.len() > 0,
        matches_whole(pieces, text),
    ensures
        exists|cuts: Seq<int>| whole_match(pieces, text, cuts),
{
    let cuts = choose|cuts: Seq<int>| covers(pieces, text, cuts);
    let first = lemma_first_way(pieces, text, |c: Seq<int>| covers(pieces, text, c), cuts, 0);
    assert forall|other: Seq<int>| #[trigger] covers(pieces, text, other) implies other == first
        || comes_first(first, other) by {
        assert((|c: Seq<int>| covers(pieces, text, c))(other));
    }
    assert(whole_match(pieces, text, first));
}

/// There is only one match of pieces with all of a text.
pub proof fn lemma_whole_match_unique(
    pieces: Seq<Piece>,
    text: Seq<char>,
    a: Seq<int>,
    b: Seq<int>,
)
    requires
        whole_match(pieces, text, a),
        whole_match(pieces, text, b),
    ensures
        a == b,
{
    if a != b {
        assert(covers(pieces, text, a) && covers(pieces, text, b));
        assert(comes_first(a, b) && comes_first(b, a));
    }
}

/// A stretch that fits at or behind `from` means that there is a next match.
proof fn lemma_next_match_exists(
    pieces: Seq<Piece>,
    text: Seq<char>,
    from: int,
    some: Seq<int>,
) -> (first: Seq<int>)
    requires
        pieces.len() > 0,
        0 <= from,
        fits(pieces, text, some),
        from <= some[0],
    ensures
        next_match(pieces, text, from, first),
    decreases some[0],
{
    if exists|other: Seq<int>| #[trigger]
        fits(pieces, text, other) && from <= other[0] < some[0] {
        let other = choose|other: Seq<int>| #[trigger]
            fits(pieces, text, other) && from <= other[0] < some[0];
        lemma_next_match_exists(pieces, text, from, other)
    } else {
        let start = some[0];
        let ways = |c: Seq<int>| fits(pieces, text, c) && c[0] == start;
        let first = lemma_first_way(pieces, text, ways, some, 0);
        assert forall|other: Seq<int>| #[trigger]
            fits(pieces, text, other) && from <= other[0] implies {
            ||| first[0] < other[0]
            ||| first[0] == other[0] && (other == first || comes_first(first, other))
        } by {
            if other[0] == start {
                assert(ways(other));
            }
        }
        first
    }
}

/// There is only one next match.
proof fn lemma_next_match_unique(
    pieces: Seq<Piece>,
    text: Seq<char>,
    from: int,
    a: Seq<int>,
    b: Seq<int>,
)
    requires
        next_match(pieces, text, from, a),
        next_match(pieces, text, from, b),
    ensures
        a == b,
{
    assert(fits(pieces, text, a) && fits(pieces, text, b));
    if a != b {
        assert(comes_first(a, b) && comes_first(b, a));
    }
}

/// There is a row of successive matches, if no match is empty.
proof fn lemma_all_matches_exist(pieces: Seq<Piece>, text: Seq<char>, from: int) -> (hits: Seq<
    Seq<int>,
>)
    requires
        pieces.len() > 0,
        0 <= from <= text.len(),
        forall|cuts: Seq<int>| #[trigger] fits(pieces, text, cuts) ==> cuts[0] < cuts.last(),
    ensures
        all_matches(pieces, text, from, hits),
    decreases text.len() - from,
{
    if exists|some: Seq<int>| #[trigger] fits(pieces, text, some) && from <= some[0] {
        let some = choose|some: Seq<int>| #[trigger] fits(pieces, text, some) && from <= some[0];
        let first = lemma_next_match_exists(pieces, text, from, some);
        lemma_cuts_ascend(pieces, text, first, 0, first.len() - 1);
        let rest = lemma_all_matches_exist(pieces, text, first.last());
        let hits = seq![first] + rest;
        assert(hits.drop_first() =~= rest);
        hits
    } else {
        Seq::empty()
    }
}

/// There is only one row of successive matches.
proof fn lemma_all_matches_unique(
    pieces: Seq<Piece>,
    text: Seq<char>,
    from: int,
    a: Seq<Seq<int>>,
    b: Seq<Seq<int>>,
)
    requires
        all_matches(pieces, text, from, a),
        all_matches(pieces, text, from, b),
    ensures
        a == b,
    decreases a.len(),
{
    if a.len() == 0 {
        if b.len() > 0 {
            assert(fits(pieces, text, b[0]));
        }
        assert(a =~= b);
    } else if b.len() == 0 {
        assert(fits(pieces, text, a[0]));
    } else {
        lemma_next_match_unique(pieces, text, from, a[0], b[0]);
        lemma_all_matches_unique(pieces, text, a[0].last(), a.drop_first(), b.drop_first());
        assert(a =~= seq![a[0]] + a.drop_first());
        assert(b =~= seq![b[0]] + b.drop_first());
    }
}

/// What the unnamed group holds of each match of `pieces` in `text`.
pub open spec fn found_groups(pieces: Seq<Piece>, text: Seq<char>) -> Seq<Seq<char>> {
    choose|groups: Seq<Seq<char>>| are_first_groups(pieces, text, groups)
}

/// There is only one list of what the matches of `pieces` hold.
pub proof fn lemma_found_groups(pieces: Seq<Piece>, text: Seq<char>, groups: Seq<Seq<char>>)
    requires
        are_first_groups(pieces, text, groups),
    ensures
        groups == found_groups(pieces, text),
{
    let other = found_groups(pieces, text);
    assert(are_first_groups(pieces, text, other));
    let group = |cuts: Seq<int>| group_text(pieces, text, cuts, Seq::empty())->0;
    let a = choose|hits: Seq<Seq<int>>| #[trigger]
        all_matches(pieces, text, 0, hits) && groups == hits.map_values(
            |cuts: Seq<int>| group_text(pieces, text, cuts, Seq::empty())->0,
        );
    let b = choose|hits: Seq<Seq<int>>| #[trigger]
        all_matches(pieces, text, 0, hits) && other == hits.map_values(
            |cuts: Seq<int>| group_text(pieces, text, cuts, Seq::empty())->0,
        );
    lemma_all_matches_unique(pieces, text, 0, a, b);
    assert(groups =~= a.map_values(group));
    assert(other =~= a.map_values(group));
}

/// There is a list of what the matches of `pieces` hold, if no match is
/// empty.
pub proof fn lemma_found_groups_exist(pieces: Seq<Piece>, text: Seq<char>)
    requires
        pieces.len() > 0,
        forall|cuts: Seq<int>| #[trigger] fits(pieces, text, cuts) ==> cuts[0] < cuts.last(),
    ensures
        are_first_groups(pieces, text, found_groups(pieces, text)),
{
    let hits = lemma_all_matches_exist(pieces, text, 0);
    let groups = hits.map_values(
        |cuts: Seq<int>| group_text(pieces, text, cuts, Seq::empty())->0,
    );
    assert(are_first_groups(pieces, text, groups));
}

// ---------------------------------------------------------------------------
// The outside calls
// ---------------------------------------------------------------------------

/// The contents of a list of optional strings.
pub open spec fn opt_views(list: Seq<Option<String>>) -> Seq<Option<Seq<char>>> {
    list.map_values(|s: Option<String>| opt_view(s))
}

/// `regex::Regex::captures` with `pattern`, and `regex::Captures::name` for
/// each of `names`. The contract is the documented meaning of the syntax for
/// the expressions that the checker holds against whole messages: between
/// `^` and `$` the pieces match all of the text, `.` is any character but a
/// line feed, `\d` a digit, `\w` a word character, and `+` and `*` are
/// greedy from left to right. There is a match if and only if the text can
/// be cut up so, and each named group holds the text of its piece: a line
/// number holds what `\d` matches, and the first item what `\w` matches.
#[verifier::external_body]
pub(crate) fn captures(pattern: &str, text: &str, names: &Vec<String>) -> (groups: Option<Vec<Option<String>>>)
    requires
        is_message_pattern(pattern@),
    ensures
        forall|pieces: Seq<Piece>|
            #![trigger anchored_syntax(pieces)]
            anchored_syntax(pieces) == pattern@ && is_plain(pieces) ==> match groups {
                Some(found) => are_group_texts(pieces, text@, views(names@), opt_views(found@)),
                None => !matches_whole(pieces, text@),
            },
        groups matches Some(found) ==> forall|k: int, j: int|
            0 <= k < found@.len() && names@[k]@ == "line"@ && found@[k] is Some && 0 <= j
                < found@[k]->0@.len() ==> {
                let c = #[trigger] found@[k]->0@[j];
                '0' <= c <= '9' || (c > '\u{7f}' && unicode_digit(c))
            },
        groups matches Some(found) ==> forall|k: int, j: int|
            0 <= k < found@.len() && names@[k]@ == "item_a"@ && found@[k] is Some && 0 <= j
                < found@[k]->0@.len() ==> {
                let c = #[trigger] found@[k]->0@[j];
                'a' <= c <= 'z' || 'A' <= c <= 'Z' || '0' <= c <= '9' || c == '_' || (c > '\u{7f}' && unicode_word(c))
            },
{
    let regex = regex::Regex::new(pattern).unwrap();
    let found = regex.captures(text)?;
    Some(names.iter().map(|n| found.name(n).map(|m| m.as_str().to_string())).collect())
}

/// `regex::Regex::captures_iter` with `pattern`: the first group of every
/// match, in order. The contract is the documented meaning of the syntax for
/// the two expressions that are searched for: matches are leftmost, do not
/// overlap, and their runs are greedy from left to right; `\s` is white
/// space, `\w` a word character, and `[a-z_][a-z0-9_]*` spells out its
/// ASCII characters.
#[verifier::external_body]
pub(crate) fn first_groups(pattern: &str, text: &str) -> (groups: Vec<String>)
    requires
        is_search_pattern(pattern@),
    ensures
        forall|pieces: Seq<Piece>|
            #![trigger syntax(pieces)]
            syntax(pieces) == pattern@ && is_plain(pieces) ==> are_first_groups(
                pieces,
                text@,
                views(groups@),
            ),
{
    let regex = regex::Regex::new(pattern).unwrap();
    regex.captures_iter(text).map(|found| found[1].to_string()).collect()
}

} // verus!
