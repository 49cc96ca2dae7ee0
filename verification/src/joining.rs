//! Texts put together: what is found in the whole is what is found in the
//! parts.

use crate::patterns::{
    all_matches, comes_first, fits, found_groups, group_text, lemma_cuts_ascend, lemma_found_groups,
    lemma_found_groups_exist, next_match, part, piece_matches, run_char, run_matches, Piece,
};
use crate::references::{
    function_pieces, kept_references, law_merging_keeps_each_name_once, line_references, merged,
    public_functions, reference_pieces, references,
};
use crate::text::{find_from, lemma_find_from, lines, lines_from, occurs_at, strip_carriage_return};
use vstd::prelude::*;
use vstd::string::*;

verus! {

// ---------------------------------------------------------------------------
// A character that no match holds
// ---------------------------------------------------------------------------

/// No match of `pieces` holds the character `c`.
pub open spec fn never_holds(pieces: Seq<Piece>, c: char) -> bool {
    forall|i: int|
        0 <= i < pieces.len() ==> match #[trigger] pieces[i] {
            Piece::Literal(text) => !text.contains(c),
            Piece::Plain(run) => !run_char(run, c),
            Piece::Group(_, run) => !run_char(run, c),
        }
}

/// The first piece is a text, so that no match is empty.
pub open spec fn begins_with_text(pieces: Seq<Piece>) -> bool {
    pieces.len() > 0 && pieces[0] is Literal && pieces[0]->Literal_0.len() > 0
}

/// `cuts`, `by` positions further on.
pub open spec fn moved(cuts: Seq<int>, by: int) -> Seq<int> {
    cuts.map_values(|cut: int| cut + by)
}

/// Every one of `hits`, `by` positions further on.
pub open spec fn all_moved(hits: Seq<Seq<int>>, by: int) -> Seq<Seq<int>> {
    hits.map_values(|cuts: Seq<int>| moved(cuts, by))
}

/// No match is empty.
pub proof fn lemma_not_empty(pieces: Seq<Piece>, text: Seq<char>, cuts: Seq<int>)
    requires
        begins_with_text(pieces),
        fits(pieces, text, cuts),
    ensures
        0 <= cuts[0] < cuts.last() <= text.len(),
{
    lemma_cuts_ascend(pieces, text, cuts, 0, 1);
    lemma_cuts_ascend(pieces, text, cuts, 1, cuts.len() - 1);
    assert(piece_matches(pieces[0], part(text, cuts, 0)));
    assert(part(text, cuts, 0).len() == cuts[1] - cuts[0]);
}

/// A character inside a match is not `c`.
proof fn lemma_inside(
    pieces: Seq<Piece>,
    text: Seq<char>,
    cuts: Seq<int>,
    c: char,
    i: int,
    k: int,
)
    requires
        never_holds(pieces, c),
        fits(pieces, text, cuts),
        0 <= i < cuts.len(),
        cuts[i] <= k < cuts.last(),
        0 <= k,
    ensures
        text[k] != c,
    decreases cuts.len() - i,
{
    if i < pieces.len() {
        let own = part(text, cuts, i);
        assert(piece_matches(pieces[i], own));
        if k < cuts[i + 1] {
            assert(own[k - cuts[i]] == text[k]);
            match pieces[i] {
                Piece::Literal(t) => {
                    assert(t.contains(own[k - cuts[i]]));
                },
                Piece::Plain(run) => {
                    assert(run_matches(run, own));
                },
                Piece::Group(_, run) => {
                    assert(run_matches(run, own));
                },
            }
        } else {
            lemma_inside(pieces, text, cuts, c, i + 1, k);
        }
    }
}

/// A match lies on one side of a `c`.
proof fn lemma_one_side(pieces: Seq<Piece>, text: Seq<char>, cuts: Seq<int>, c: char, m: int)
    requires
        never_holds(pieces, c),
        begins_with_text(pieces),
        fits(pieces, text, cuts),
        0 <= m < text.len(),
        text[m] == c,
    ensures
        cuts.last() <= m || m + 1 <= cuts[0],
{
    if cuts[0] <= m < cuts.last() {
        lemma_inside(pieces, text, cuts, c, 0, m);
    }
}

// ---------------------------------------------------------------------------
// Matches in the first part and in the second
// ---------------------------------------------------------------------------

/// A match of the first part is a match of the whole.
proof fn lemma_fits_front(pieces: Seq<Piece>, front: Seq<char>, text: Seq<char>, cuts: Seq<int>)
    requires
        pieces.len() > 0,
        front.len() <= text.len(),
        text.take(front.len() as int) == front,
    ensures
        fits(pieces, front, cuts) <==> fits(pieces, text, cuts) && cuts.last() <= front.len(),
        fits(pieces, front, cuts) ==> forall|i: int|
            0 <= i < pieces.len() ==> #[trigger] part(front, cuts, i) == part(text, cuts, i),
{
    if fits(pieces, front, cuts) || (fits(pieces, text, cuts) && cuts.last() <= front.len()) {
        let inner = if fits(pieces, front, cuts) {
            front
        } else {
            text
        };
        assert forall|i: int| 0 <= i < pieces.len() implies 0 <= cuts[i] <= cuts[i + 1]
            <= front.len() && #[trigger] part(front, cuts, i) == part(text, cuts, i) by {
            lemma_cuts_ascend(pieces, inner, cuts, i, i + 1);
            lemma_cuts_ascend(pieces, inner, cuts, i + 1, cuts.len() - 1);
            assert(part(front, cuts, i) =~= part(text, cuts, i)) by {
                assert forall|k: int| 0 <= k < front.len() implies front[k] == text[k] by {
                    assert(text.take(front.len() as int)[k] == text[k]);
                }
            }
        }
        assert forall|i: int| 0 <= i < pieces.len() implies piece_matches(
            #[trigger] pieces[i],
            part(front, cuts, i),
        ) && piece_matches(pieces[i], part(text, cuts, i)) by {
            assert(piece_matches(pieces[i], part(inner, cuts, i)));
            assert(part(front, cuts, i) == part(text, cuts, i));
        }
        lemma_cuts_ascend(pieces, inner, cuts, 0, cuts.len() - 1);
        if inner == front {
            assert forall|i: int|
                #![trigger pieces[i]]
                #![trigger cuts[i]]
                0 <= i < pieces.len() implies 0 <= cuts[i] <= cuts[i + 1] <= text.len()
                && piece_matches(pieces[i], part(text, cuts, i)) by {
                assert(part(front, cuts, i) == part(text, cuts, i));
            }
            assert(fits(pieces, text, cuts));
            lemma_cuts_ascend(pieces, front, cuts, cuts.len() - 1, cuts.len() - 1);
        } else {
            assert forall|i: int|
                #![trigger pieces[i]]
                #![trigger cuts[i]]
                0 <= i < pieces.len() implies 0 <= cuts[i] <= cuts[i + 1] <= front.len()
                && piece_matches(pieces[i], part(front, cuts, i)) by {
                assert(part(front, cuts, i) == part(text, cuts, i));
            }
            assert(fits(pieces, front, cuts));
        }
    }
}

/// A match of the second part is a match of the whole, as far on as the
/// second part begins.
pub proof fn lemma_fits_back(
    pieces: Seq<Piece>,
    text: Seq<char>,
    at: int,
    back: Seq<char>,
    cuts: Seq<int>,
)
    requires
        pieces.len() > 0,
        0 <= at <= text.len(),
        text.skip(at) == back,
    ensures
        fits(pieces, back, cuts) <==> fits(pieces, text, moved(cuts, at)) && 0 <= cuts[0],
        fits(pieces, back, cuts) ==> forall|i: int|
            0 <= i < pieces.len() ==> #[trigger] part(back, cuts, i) == part(
                text,
                moved(cuts, at),
                i,
            ),
{
    let far = moved(cuts, at);
    if fits(pieces, back, cuts) {
        assert forall|i: int| 0 <= i < pieces.len() implies #[trigger] part(back, cuts, i) == part(
            text,
            far,
            i,
        ) by {
            assert(piece_matches(pieces[i], part(back, cuts, i)));
            assert(part(back, cuts, i) =~= part(text, far, i));
        }
        assert forall|i: int|
            #![trigger pieces[i]]
            #![trigger far[i]]
            0 <= i < pieces.len() implies 0 <= far[i] <= far[i + 1] <= text.len()
            && piece_matches(pieces[i], part(text, far, i)) by {
            assert(piece_matches(pieces[i], part(back, cuts, i)));
            assert(part(back, cuts, i) == part(text, far, i));
        }
        lemma_cuts_ascend(pieces, back, cuts, 0, 0);
    }
    if fits(pieces, text, far) && 0 <= cuts[0] {
        assert forall|i: int|
            #![trigger pieces[i]]
            #![trigger cuts[i]]
            0 <= i < pieces.len() implies 0 <= cuts[i] <= cuts[i + 1] <= back.len()
            && piece_matches(pieces[i], part(back, cuts, i)) by {
            assert(piece_matches(pieces[i], part(text, far, i)));
            lemma_cuts_ascend(pieces, text, far, 0, i);
            assert(far[0] == cuts[0] + at && far[i] == cuts[i] + at);
            assert(far[i + 1] == cuts[i + 1] + at);
            assert(part(back, cuts, i) =~= part(text, far, i));
        }
    }
}

/// Moving two ways to match does not change which comes first.
proof fn lemma_moved_order(a: Seq<int>, b: Seq<int>, by: int)
    requires
        a.len() == b.len(),
        comes_first(a, b),
    ensures
        comes_first(moved(a, by), moved(b, by)),
{
    let k = choose|k: int|
        0 <= k < a.len() && a[k] > b[k] && forall|i: int| 0 <= i < k ==> #[trigger] a[i] == b[i];
    let c = moved(a, by);
    let d = moved(b, by);
    assert(c[k] > d[k]);
    assert forall|i: int| 0 <= i < k implies #[trigger] c[i] == d[i] by {
        assert(a[i] == b[i]);
    }
}

/// The next match of the second part is the next match of the whole.
proof fn lemma_next_back(
    pieces: Seq<Piece>,
    text: Seq<char>,
    at: int,
    back: Seq<char>,
    from: int,
    cuts: Seq<int>,
)
    requires
        pieces.len() > 0,
        0 <= at <= text.len(),
        text.skip(at) == back,
        0 <= from,
        next_match(pieces, back, from, cuts),
    ensures
        next_match(pieces, text, from + at, moved(cuts, at)),
{
    let far = moved(cuts, at);
    lemma_fits_back(pieces, text, at, back, cuts);
    assert forall|other: Seq<int>| #[trigger]
        fits(pieces, text, other) && from + at <= other[0] implies {
        ||| far[0] < other[0]
        ||| far[0] == other[0] && (other == far || comes_first(far, other))
    } by {
        let near = moved(other, -at);
        assert(moved(near, at) =~= other);
        lemma_fits_back(pieces, text, at, back, near);
        assert(fits(pieces, back, near) && from <= near[0]);
        if comes_first(cuts, near) {
            lemma_moved_order(cuts, near, at);
        }
    }
}

/// The matches of the second part are the matches of the whole from there on.
pub proof fn lemma_matches_back(
    pieces: Seq<Piece>,
    text: Seq<char>,
    at: int,
    back: Seq<char>,
    from: int,
    hits: Seq<Seq<int>>,
)
    requires
        begins_with_text(pieces),
        0 <= at <= text.len(),
        text.skip(at) == back,
        0 <= from,
        all_matches(pieces, back, from, hits),
    ensures
        all_matches(pieces, text, from + at, all_moved(hits, at)),
    decreases hits.len(),
{
    let far = all_moved(hits, at);
    if hits.len() == 0 {
        assert forall|cuts: Seq<int>| #[trigger] fits(pieces, text, cuts) implies cuts[0] < from
            + at by {
            if from + at <= cuts[0] {
                let near = moved(cuts, -at);
                assert(moved(near, at) =~= cuts);
                lemma_fits_back(pieces, text, at, back, near);
                assert(fits(pieces, back, near));
            }
        }
    } else {
        lemma_next_back(pieces, text, at, back, from, hits[0]);
        lemma_not_empty(pieces, back, hits[0]);
        lemma_matches_back(pieces, text, at, back, hits[0].last(), hits.drop_first());
        assert(far.drop_first() =~= all_moved(hits.drop_first(), at));
        assert(far[0].last() == hits[0].last() + at);
    }
}

/// Where no match begins, the search may begin as well.
pub proof fn lemma_matches_earlier(
    pieces: Seq<Piece>,
    text: Seq<char>,
    early: int,
    from: int,
    hits: Seq<Seq<int>>,
)
    requires
        early <= from,
        all_matches(pieces, text, from, hits),
        forall|cuts: Seq<int>| #[trigger]
            fits(pieces, text, cuts) ==> cuts[0] < early || from <= cuts[0],
    ensures
        all_matches(pieces, text, early, hits),
{
}

/// The matches of two parts with a `c` in between are those of the first and
/// those of the second.
proof fn lemma_matches_joined(
    pieces: Seq<Piece>,
    front: Seq<char>,
    c: char,
    back: Seq<char>,
    from: int,
    hits: Seq<Seq<int>>,
    more: Seq<Seq<int>>,
)
    requires
        never_holds(pieces, c),
        begins_with_text(pieces),
        0 <= from <= front.len(),
        all_matches(pieces, front, from, hits),
        all_matches(pieces, back, 0, more),
    ensures
        all_matches(
            pieces,
            front + seq![c] + back,
            from,
            hits + all_moved(more, (front.len() + 1) as int),
        ),
    decreases hits.len(),
{
    let text = front + seq![c] + back;
    let at: int = (front.len() + 1) as int;
    let far = all_moved(more, at);
    assert(text.take(front.len() as int) =~= front);
    assert(text.skip(at) =~= back);
    if hits.len() == 0 {
        lemma_matches_back(pieces, text, at, back, 0, more);
        assert forall|cuts: Seq<int>| #[trigger] fits(pieces, text, cuts) implies cuts[0] < from
            || at <= cuts[0] by {
            lemma_one_side(pieces, text, cuts, c, front.len() as int);
            lemma_fits_front(pieces, front, text, cuts);
            if cuts.last() <= front.len() {
                assert(fits(pieces, front, cuts));
            }
        }
        lemma_matches_earlier(pieces, text, from, at, far);
        assert(hits + far =~= far);
    } else {
        let first = hits[0];
        assert(fits(pieces, front, first));
        lemma_fits_front(pieces, front, text, first);
        lemma_not_empty(pieces, front, first);
        assert forall|other: Seq<int>| #[trigger]
            fits(pieces, text, other) && from <= other[0] implies {
            ||| first[0] < other[0]
            ||| first[0] == other[0] && (other == first || comes_first(first, other))
        } by {
            lemma_one_side(pieces, text, other, c, front.len() as int);
            lemma_fits_front(pieces, front, text, other);
            if other.last() <= front.len() {
                assert(fits(pieces, front, other));
            }
        }
        lemma_matches_joined(pieces, front, c, back, first.last(), hits.drop_first(), more);
        assert((hits + far).drop_first() =~= hits.drop_first() + far);
        assert((hits + far)[0] == first);
    }
}

// ---------------------------------------------------------------------------
// What the group holds
// ---------------------------------------------------------------------------

/// What a group holds depends on the stretches of the pieces alone.
pub proof fn lemma_same_group(
    pieces: Seq<Piece>,
    text: Seq<char>,
    cuts: Seq<int>,
    other: Seq<char>,
    others: Seq<int>,
    name: Seq<char>,
)
    requires
        cuts.len() == pieces.len() + 1,
        others.len() == pieces.len() + 1,
        forall|i: int|
            0 <= i < pieces.len() ==> #[trigger] part(text, cuts, i) == part(other, others, i),
    ensures
        group_text(pieces, text, cuts, name) == group_text(pieces, other, others, name),
    decreases pieces.len(),
{
    if pieces.len() > 0 {
        assert(part(text, cuts, 0) == part(other, others, 0));
        let rest = cuts.drop_first();
        let rests = others.drop_first();
        assert forall|i: int| 0 <= i < pieces.drop_first().len() implies #[trigger] part(
            text,
            rest,
            i,
        ) == part(other, rests, i) by {
            assert(part(text, cuts, i + 1) == part(other, others, i + 1));
        }
        lemma_same_group(pieces.drop_first(), text, rest, other, rests, name);
    }
}

/// Each of the successive matches is a match.
pub proof fn lemma_hits_fit(
    pieces: Seq<Piece>,
    text: Seq<char>,
    from: int,
    hits: Seq<Seq<int>>,
    i: int,
)
    requires
        all_matches(pieces, text, from, hits),
        0 <= i < hits.len(),
    ensures
        fits(pieces, text, hits[i]),
    decreases i,
{
    if i > 0 {
        lemma_hits_fit(pieces, text, hits[0].last(), hits.drop_first(), i - 1);
    }
}

/// There is a list of what the matches hold.
pub proof fn lemma_hits(pieces: Seq<Piece>, text: Seq<char>) -> (hits: Seq<Seq<int>>)
    requires
        begins_with_text(pieces),
    ensures
        all_matches(pieces, text, 0, hits),
        found_groups(pieces, text) == hits.map_values(
            |cuts: Seq<int>| group_text(pieces, text, cuts, Seq::empty())->0,
        ),
{
    assert forall|cuts: Seq<int>| #[trigger] fits(pieces, text, cuts) implies cuts[0]
        < cuts.last() by {
        lemma_not_empty(pieces, text, cuts);
    }
    lemma_found_groups_exist(pieces, text);
    choose|hits: Seq<Seq<int>>| #[trigger]
        all_matches(pieces, text, 0, hits) && found_groups(pieces, text) == hits.map_values(
            |cuts: Seq<int>| group_text(pieces, text, cuts, Seq::empty())->0,
        )
}

/// A character that no match holds parts a text: what is found in the whole
/// is what is found in front of it, followed by what is found behind it.
pub proof fn law_found_groups_of_joined_texts(
    pieces: Seq<Piece>,
    front: Seq<char>,
    c: char,
    back: Seq<char>,
)
    requires
        never_holds(pieces, c),
        begins_with_text(pieces),
    ensures
        found_groups(pieces, front + seq![c] + back) == found_groups(pieces, front) + found_groups(
            pieces,
            back,
        ),
{
    let text = front + seq![c] + back;
    let at: int = (front.len() + 1) as int;
    let hits = lemma_hits(pieces, front);
    let more = lemma_hits(pieces, back);
    let far = all_moved(more, at);
    lemma_matches_joined(pieces, front, c, back, 0, hits, more);
    assert(text.take(front.len() as int) =~= front);
    assert(text.skip(at) =~= back);
    let all = hits + far;
    let wanted = found_groups(pieces, front) + found_groups(pieces, back);
    let groups = all.map_values(
        |cuts: Seq<int>| group_text(pieces, text, cuts, Seq::empty())->0,
    );
    assert forall|i: int| 0 <= i < all.len() implies #[trigger] groups[i] == wanted[i] by {
        if i < hits.len() {
            lemma_hits_fit(pieces, front, 0, hits, i);
            lemma_fits_front(pieces, front, text, hits[i]);
            lemma_same_group(pieces, front, hits[i], text, all[i], Seq::empty());
        } else {
            let k = i - hits.len();
            lemma_hits_fit(pieces, back, 0, more, k);
            lemma_fits_back(pieces, text, at, back, more[k]);
            assert(all[i] == moved(more[k], at));
            lemma_same_group(pieces, back, more[k], text, all[i], Seq::empty());
        }
    }
    assert(groups =~= wanted);
    lemma_found_groups(pieces, text, groups);
}

/// Nothing is found in an empty text.
pub proof fn lemma_nothing_in_empty_text(pieces: Seq<Piece>)
    requires
        begins_with_text(pieces),
    ensures
        found_groups(pieces, Seq::empty()) == Seq::<Seq<char>>::empty(),
{
    let hits = lemma_hits(pieces, Seq::empty());
    if hits.len() > 0 {
        lemma_hits_fit(pieces, Seq::empty(), 0, hits, 0);
        lemma_not_empty(pieces, Seq::empty(), hits[0]);
    }
    assert(found_groups(pieces, Seq::empty()) =~= Seq::empty());
}

// ---------------------------------------------------------------------------
// Public functions of joined sources
// ---------------------------------------------------------------------------

/// The names in `names` that are not in `known`.
pub open spec fn others(names: Seq<Seq<char>>, known: Seq<Seq<char>>) -> Seq<Seq<char>>
    decreases names.len(),
{
    if names.len() == 0 {
        seq![]
    } else {
        let before = others(names.drop_last(), known);
        if known.contains(names.last()) {
            before
        } else {
            before.push(names.last())
        }
    }
}

/// Merging two lists one behind the other is merging them in turn.
proof fn lemma_merged_in_turn(names: Seq<Seq<char>>, a: Seq<Seq<char>>, b: Seq<Seq<char>>)
    ensures
        merged(names, a + b) == merged(merged(names, a), b),
    decreases b.len(),
{
    if b.len() == 0 {
        assert(a + b =~= a);
    } else {
        lemma_merged_in_turn(names, a, b.drop_last());
        assert((a + b).drop_last() =~= a + b.drop_last());
        assert((a + b).last() == b.last());
    }
}

/// Leaving out repeated names first makes no difference.
proof fn lemma_merged_once(names: Seq<Seq<char>>, more: Seq<Seq<char>>)
    requires
        names.no_duplicates(),
    ensures
        merged(names, merged(seq![], more)) == merged(names, more),
    decreases more.len(),
{
    if more.len() > 0 {
        let front = more.drop_last();
        let once = merged(seq![], front);
        lemma_merged_once(names, front);
        law_merging_keeps_each_name_once(seq![], front);
        law_merging_keeps_each_name_once(names, front);
        assert(once.contains(more.last()) <==> front.contains(more.last()));
        if once.contains(more.last()) {
            assert(merged(names, front).contains(more.last()));
        } else {
            assert(once.push(more.last()).drop_last() =~= once);
        }
    }
}

/// Names that differ from each other are added where they are new.
proof fn lemma_merged_others(names: Seq<Seq<char>>, more: Seq<Seq<char>>)
    requires
        more.no_duplicates(),
    ensures
        merged(names, more) == names + others(more, names),
        forall|name: Seq<char>| #[trigger]
            others(more, names).contains(name) ==> more.contains(name),
    decreases more.len(),
{
    if more.len() == 0 {
        assert(names + others(more, names) =~= names);
    } else {
        let front = more.drop_last();
        let last = more.last();
        let before = others(front, names);
        let after = others(more, names);
        lemma_merged_others(names, front);
        assert(more[more.len() - 1] == last);
        if front.contains(last) {
            let k = choose|k: int| 0 <= k < front.len() && front[k] == last;
            assert(more[k] == last);
        }
        assert(!before.contains(last));
        let all = names + before;
        if all.contains(last) {
            let k = choose|k: int| 0 <= k < all.len() && all[k] == last;
            if k < names.len() {
                assert(names[k] == last);
            } else {
                assert(before[k - names.len()] == last);
            }
        }
        if names.contains(last) {
            let k = choose|k: int| 0 <= k < names.len() && names[k] == last;
            assert(all[k] == last);
        }
        assert(names + before.push(last) =~= all.push(last));
        assert forall|name: Seq<char>| #[trigger] after.contains(name) implies more.contains(
            name,
        ) by {
            let k = choose|k: int| 0 <= k < after.len() && after[k] == name;
            if k < before.len() {
                assert(before[k] == name);
                assert(before.contains(name));
                let j = choose|j: int| 0 <= j < front.len() && front[j] == name;
                assert(more[j] == name);
            }
        }
    }
}

/// No match of the expression for public functions holds a semicolon.
pub proof fn lemma_function_pieces()
    ensures
        never_holds(function_pieces(), ';'),
        begins_with_text(function_pieces()),
{
    reveal_strlit("pub");
    reveal_strlit("fn");
    let pieces = function_pieces();
    assert(!"pub"@.contains(';'));
    assert(!"fn"@.contains(';'));
    assert forall|i: int| 0 <= i < pieces.len() implies match #[trigger] pieces[i] {
        Piece::Literal(text) => !text.contains(';'),
        Piece::Plain(run) => !run_char(run, ';'),
        Piece::Group(_, run) => !run_char(run, ';'),
    } by {}
}

/// The public functions of two sources with a semicolon in between are those
/// of the first, followed by those of the second that the first does not
/// have. No name comes twice.
pub proof fn law_public_functions_of_joined_sources(a: Seq<char>, b: Seq<char>)
    ensures
        public_functions(a + ";"@ + b) == public_functions(a) + others(
            public_functions(b),
            public_functions(a),
        ),
        public_functions(a + ";"@ + b).no_duplicates(),
{
    let pieces = function_pieces();
    let first = found_groups(pieces, a);
    let second = found_groups(pieces, b);
    reveal_strlit(";");
    assert(";"@ =~= seq![';']);
    lemma_function_pieces();
    law_found_groups_of_joined_texts(pieces, a, ';', b);
    law_merging_keeps_each_name_once(seq![], first);
    law_merging_keeps_each_name_once(seq![], second);
    law_merging_keeps_each_name_once(seq![], first + second);
    lemma_merged_in_turn(seq![], first, second);
    lemma_merged_once(public_functions(a), second);
    lemma_merged_others(public_functions(a), public_functions(b));
}

/// The public functions of a source come in the order in which they first
/// stand there: of two names, the one that comes first stands somewhere in
/// front of all places of the other.
pub proof fn law_public_functions_come_in_order(content: Seq<char>, i: int, j: int)
    requires
        0 <= i < j < public_functions(content).len(),
    ensures
        exists|k: int|
            0 <= k < found_groups(function_pieces(), content).len() && #[trigger] found_groups(
                function_pieces(),
                content,
            )[k] == public_functions(content)[i] && stands_behind(
                found_groups(function_pieces(), content),
                public_functions(content)[j],
                k,
            ),
{
    lemma_merged_in_order(found_groups(function_pieces(), content), i, j);
}

/// All places of `name` in `list` are behind position `k`.
pub open spec fn stands_behind(list: Seq<Seq<char>>, name: Seq<char>, k: int) -> bool {
    forall|l: int| 0 <= l <= k && l < list.len() ==> #[trigger] list[l] != name
}

proof fn lemma_merged_in_order(list: Seq<Seq<char>>, i: int, j: int)
    requires
        0 <= i < j < merged(seq![], list).len(),
    ensures
        exists|k: int|
            0 <= k < list.len() && #[trigger] list[k] == merged(seq![], list)[i] && stands_behind(
                list,
                merged(seq![], list)[j],
                k,
            ),
    decreases list.len(),
{
    if list.len() > 0 {
        let front = list.drop_last();
        let before = merged(seq![], front);
        let after = merged(seq![], list);
        law_merging_keeps_each_name_once(seq![], front);
        if j < before.len() {
            lemma_merged_in_order(front, i, j);
            let k = choose|k: int|
                0 <= k < front.len() && #[trigger] front[k] == before[i] && stands_behind(
                    front,
                    before[j],
                    k,
                );
            assert(list[k] == after[i]);
            assert forall|l: int| 0 <= l <= k && l < list.len() implies #[trigger] list[l]
                != after[j] by {
                assert(front[l] != before[j]);
            }
            assert(stands_behind(list, after[j], k));
        } else {
            assert(before.contains(before[i]));
            let k = choose|k: int| 0 <= k < front.len() && front[k] == before[i];
            assert(list[k] == after[i]);
            assert forall|l: int| 0 <= l <= k && l < list.len() implies #[trigger] list[l]
                != after[j] by {
                assert(front.contains(front[l]));
            }
            assert(stands_behind(list, after[j], k));
        }
    }
}

// ---------------------------------------------------------------------------
// Lines of joined documents
// ---------------------------------------------------------------------------

/// The number of line feeds in `s` from position `from` on.
pub open spec fn line_feeds_from(s: Seq<char>, from: int) -> nat
    decreases s.len() - from,
{
    if from < 0 || from >= s.len() {
        0
    } else {
        line_feeds_from(s, from + 1) + if s[from] == '\n' {
            1nat
        } else {
            0nat
        }
    }
}

/// The number of line feeds in `s`.
pub open spec fn line_feeds(s: Seq<char>) -> nat {
    line_feeds_from(s, 0)
}

/// The lines of `s` from position `from` on, the last one ended by a line
/// feed behind `s`.
spec fn ended_lines(s: Seq<char>, from: int) -> Seq<Seq<char>>
    decreases s.len() - from,
{
    if from < 0 || from > s.len() {
        Seq::empty()
    } else {
        proof {
            lemma_find_from(s, seq!['\n'], from);
        }
        match find_from(s, seq!['\n'], from) {
            None => seq![strip_carriage_return(s.subrange(from, s.len() as int))],
            Some(i) => seq![strip_carriage_return(s.subrange(from, i))] + ended_lines(s, i + 1),
        }
    }
}

/// Where one character stands.
proof fn lemma_occurs_char(s: Seq<char>, c: char, i: int)
    ensures
        occurs_at(s, seq![c], i) <==> 0 <= i < s.len() && s[i] == c,
{
    if 0 <= i < s.len() {
        let own = s.subrange(i, i + 1);
        assert(own[0] == s[i]);
        if s[i] == c {
            assert(own =~= seq![c]);
        } else {
            assert(seq![c][0] == c);
        }
    }
}

/// What is found of one character.
proof fn lemma_find_char(s: Seq<char>, c: char, from: int)
    requires
        0 <= from,
    ensures
        match find_from(s, seq![c], from) {
            Some(i) => from <= i < s.len() && s[i] == c && forall|j: int|
                from <= j < i ==> #[trigger] s[j] != c,
            None => forall|j: int| from <= j < s.len() ==> #[trigger] s[j] != c,
        },
{
    lemma_find_from(s, seq![c], from);
    match find_from(s, seq![c], from) {
        Some(i) => {
            lemma_occurs_char(s, c, i);
            assert forall|j: int| from <= j < i implies #[trigger] s[j] != c by {
                lemma_occurs_char(s, c, j);
            }
        },
        None => {
            assert forall|j: int| from <= j < s.len() implies #[trigger] s[j] != c by {
                lemma_occurs_char(s, c, j);
            }
        },
    }
}

/// The lines of a whole from the first part on.
proof fn lemma_lines_front(a: Seq<char>, b: Seq<char>, from: int)
    requires
        0 <= from <= a.len(),
    ensures
        lines_from(a + seq!['\n'] + b, from) == ended_lines(a, from) + lines_from(
            a + seq!['\n'] + b,
            (a.len() + 1) as int,
        ),
    decreases a.len() - from,
{
    let t = a + seq!['\n'] + b;
    lemma_find_char(t, '\n', from);
    lemma_find_char(a, '\n', from);
    assert(t[a.len() as int] == '\n');
    assert(forall|k: int| 0 <= k < a.len() ==> #[trigger] t[k] == a[k]);
    let i = find_from(t, seq!['\n'], from)->0;
    match find_from(a, seq!['\n'], from) {
        None => {
            if i < a.len() {
                assert(t[i] == a[i]);
            }
            assert(i == a.len());
            assert(t.subrange(from, i) =~= a.subrange(from, i));
        },
        Some(k) => {
            assert(t[k] == a[k]);
            if i < k {
                assert(t[i] == a[i]);
            }
            assert(i == k);
            assert(t.subrange(from, i) =~= a.subrange(from, i));
            lemma_lines_front(a, b, i + 1);
            let line = seq![strip_carriage_return(a.subrange(from, i))];
            let last = lines_from(t, (a.len() + 1) as int);
            assert(line + (ended_lines(a, i + 1) + last) =~= line + ended_lines(a, i + 1) + last);
        },
    }
}

/// The lines of a whole from the second part on.
proof fn lemma_lines_back(t: Seq<char>, at: int, b: Seq<char>, from: int)
    requires
        0 <= at <= t.len(),
        t.skip(at) == b,
        0 <= from,
    ensures
        lines_from(t, at + from) == lines_from(b, from),
    decreases b.len() - from,
{
    if from < b.len() {
        lemma_find_char(t, '\n', at + from);
        lemma_find_char(b, '\n', from);
        assert(forall|k: int| 0 <= k < b.len() ==> #[trigger] b[k] == t[at + k]);
        match find_from(b, seq!['\n'], from) {
            None => {
                if find_from(t, seq!['\n'], at + from) is Some {
                    let i = find_from(t, seq!['\n'], at + from)->0;
                    assert(b[i - at] == t[i]);
                }
                assert(t.subrange(at + from, t.len() as int) =~= b.subrange(
                    from,
                    b.len() as int,
                ));
            },
            Some(k) => {
                assert(t[at + k] == '\n');
                let i = find_from(t, seq!['\n'], at + from)->0;
                if i < at + k {
                    assert(b[i - at] == t[i]);
                }
                assert(i == at + k);
                assert(t.subrange(at + from, i) =~= b.subrange(from, k));
                lemma_lines_back(t, at, b, k + 1);
            },
        }
    }
}

/// Line feeds are counted from the next one on.
proof fn lemma_line_feeds_skip(s: Seq<char>, from: int, to: int)
    requires
        0 <= from <= to <= s.len(),
        forall|j: int| from <= j < to ==> #[trigger] s[j] != '\n',
    ensures
        line_feeds_from(s, from) == line_feeds_from(s, to),
    decreases to - from,
{
    if from < to {
        assert(s[from] != '\n');
        lemma_line_feeds_skip(s, from + 1, to);
    }
}

/// There is one line more than there are line feeds.
proof fn lemma_ended_lines_count(s: Seq<char>, from: int)
    requires
        0 <= from <= s.len(),
    ensures
        ended_lines(s, from).len() == 1 + line_feeds_from(s, from),
    decreases s.len() - from,
{
    lemma_find_char(s, '\n', from);
    match find_from(s, seq!['\n'], from) {
        None => lemma_line_feeds_skip(s, from, s.len() as int),
        Some(i) => {
            lemma_line_feeds_skip(s, from, i);
            lemma_ended_lines_count(s, i + 1);
        },
    }
}

// ---------------------------------------------------------------------------
// References of joined documents
// ---------------------------------------------------------------------------

/// `list`, with every line number raised by `by`.
pub open spec fn further_down(list: Seq<(Seq<char>, nat)>, by: nat) -> Seq<(Seq<char>, nat)> {
    list.map_values(|r: (Seq<char>, nat)| (r.0, r.1 + by))
}

proof fn lemma_further_down_names(names: Seq<Seq<char>>, line: nat, by: nat)
    ensures
        kept_references(names, line + by) == further_down(kept_references(names, line), by),
    decreases names.len(),
{
    if names.len() > 0 {
        lemma_further_down_names(names.drop_last(), line, by);
    }
    assert(kept_references(names, line + by) =~= further_down(kept_references(names, line), by));
}

/// The references in the lines of one document behind those of another.
proof fn lemma_references_behind(a: Seq<Seq<char>>, b: Seq<Seq<char>>)
    ensures
        line_references(a + b) == line_references(a) + further_down(line_references(b), a.len()),
    decreases b.len(),
{
    if b.len() == 0 {
        assert(a + b =~= a);
        assert(further_down(line_references(b), a.len()) =~= Seq::empty());
        assert(line_references(a) + further_down(line_references(b), a.len()) =~= line_references(a));
    } else {
        let front = b.drop_last();
        let names = found_groups(reference_pieces(), b.last());
        lemma_references_behind(a, front);
        assert((a + b).drop_last() =~= a + front);
        assert((a + b).last() == b.last());
        lemma_further_down_names(names, b.len(), a.len());
        assert((a + b).len() == b.len() + a.len());
        assert(line_references(a + b) =~= line_references(a) + further_down(
            line_references(b),
            a.len(),
        ));
    }
}

/// No match of the expression for references holds a carriage return.
pub proof fn lemma_reference_pieces()
    ensures
        never_holds(reference_pieces(), '\r'),
        begins_with_text(reference_pieces()),
{
    reveal_strlit("`");
    let pieces = reference_pieces();
    assert(!"`"@.contains('\r'));
    assert forall|i: int| 0 <= i < pieces.len() implies match #[trigger] pieces[i] {
        Piece::Literal(text) => !text.contains('\r'),
        Piece::Plain(run) => !run_char(run, '\r'),
        Piece::Group(_, run) => !run_char(run, '\r'),
    } by {}
}

/// The carriage return of a line ending does not matter to references.
proof fn lemma_carriage_return(line: Seq<char>)
    ensures
        found_groups(reference_pieces(), strip_carriage_return(line)) == found_groups(
            reference_pieces(),
            line,
        ),
{
    lemma_reference_pieces();
    if line.len() > 0 && line.last() == '\r' {
        let front = strip_carriage_return(line);
        let nothing = Seq::<char>::empty();
        law_found_groups_of_joined_texts(reference_pieces(), front, '\r', nothing);
        lemma_nothing_in_empty_text(reference_pieces());
        assert(front + seq!['\r'] + nothing =~= line);
        assert(found_groups(reference_pieces(), front) + Seq::<Seq<char>>::empty()
            =~= found_groups(reference_pieces(), front));
    }
}

/// The lines hold the same references, and one empty line may follow.
spec fn are_like(ended: Seq<Seq<char>>, own: Seq<Seq<char>>) -> bool {
    &&& ended.len() == own.len() || (ended.len() == own.len() + 1 && ended.last().len() == 0)
    &&& forall|i: int|
        0 <= i < own.len() ==> found_groups(reference_pieces(), #[trigger] ended[i])
            == found_groups(reference_pieces(), own[i])
}

/// A line feed at the end does not matter to references.
proof fn lemma_ended_lines_are_like(s: Seq<char>, from: int)
    requires
        0 <= from <= s.len(),
    ensures
        ended_lines(s, from).len() > 0,
        are_like(ended_lines(s, from), lines_from(s, from)),
    decreases s.len() - from,
{
    lemma_find_char(s, '\n', from);
    let ended = ended_lines(s, from);
    let own = lines_from(s, from);
    match find_from(s, seq!['\n'], from) {
        None => {
            lemma_carriage_return(s.subrange(from, s.len() as int));
        },
        Some(i) => {
            lemma_ended_lines_are_like(s, i + 1);
            let more = ended_lines(s, i + 1);
            let rest = lines_from(s, i + 1);
            assert(ended.last() == more.last());
            assert forall|k: int| 0 <= k < own.len() implies found_groups(
                reference_pieces(),
                #[trigger] ended[k],
            ) == found_groups(reference_pieces(), own[k]) by {
                if k > 0 {
                    assert(ended[k] == more[k - 1]);
                    assert(own[k] == rest[k - 1]);
                }
            }
        },
    }
}

/// Lines that hold the same names have the same references.
proof fn lemma_like_lines(ended: Seq<Seq<char>>, own: Seq<Seq<char>>)
    requires
        are_like(ended, own),
    ensures
        line_references(ended) == line_references(own),
    decreases own.len(), ended.len(),
{
    if ended.len() > own.len() {
        let front = ended.drop_last();
        assert forall|i: int| 0 <= i < own.len() implies found_groups(
            reference_pieces(),
            #[trigger] front[i],
        ) == found_groups(reference_pieces(), own[i]) by {
            assert(front[i] == ended[i]);
        }
        lemma_like_lines(front, own);
        assert(ended.last() =~= Seq::empty());
        lemma_reference_pieces();
        lemma_nothing_in_empty_text(reference_pieces());
        assert(line_references(front) + Seq::<(Seq<char>, nat)>::empty() =~= line_references(
            front,
        ));
    } else if own.len() > 0 {
        let front = ended.drop_last();
        let owns = own.drop_last();
        assert forall|i: int| 0 <= i < owns.len() implies found_groups(
            reference_pieces(),
            #[trigger] front[i],
        ) == found_groups(reference_pieces(), owns[i]) by {
            assert(front[i] == ended[i]);
            assert(owns[i] == own[i]);
        }
        lemma_like_lines(front, owns);
        assert(ended[own.len() - 1] == ended.last());
        assert(own[own.len() - 1] == own.last());
    } else {
        assert(ended =~= own);
    }
}

/// The references of two documents with a line feed in between are those of
/// the first, followed by those of the second, whose lines are counted on:
/// there is one line more in front of them than the first has line feeds.
pub proof fn law_references_of_joined_documents(a: Seq<char>, b: Seq<char>)
    ensures
        references(a + "\n"@ + b) == references(a) + further_down(references(b), 1 + line_feeds(a)),
{
    reveal_strlit("\n");
    assert("\n"@ =~= seq!['\n']);
    let t = a + seq!['\n'] + b;
    let at: int = (a.len() + 1) as int;
    assert(t.skip(at) =~= b);
    lemma_lines_front(a, b, 0);
    lemma_lines_back(t, at, b, 0);
    lemma_references_behind(ended_lines(a, 0), lines(b));
    lemma_ended_lines_count(a, 0);
    lemma_ended_lines_are_like(a, 0);
    lemma_like_lines(ended_lines(a, 0), lines(a));
}

} // verus!
