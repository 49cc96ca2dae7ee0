//! Which names documents refer to, which functions contracts have, and which
//! references are reported as stale.

use crate::files::TextFileView;
use crate::findings::CheckConfig;
use crate::joining::{
    all_moved, begins_with_text, law_found_groups_of_joined_texts, lemma_fits_back,
    lemma_function_pieces, lemma_hits, lemma_hits_fit, lemma_matches_back, lemma_matches_earlier,
    lemma_not_empty, lemma_nothing_in_empty_text, lemma_reference_pieces, lemma_same_group, moved,
    never_holds,
};
use crate::laws::text::law_text_is_read_line_by_line;
use crate::paths::relative_path;
use crate::patterns::{
    all_matches, comes_first, fits, found_groups, group_text, is_word_char, lemma_cuts_ascend,
    lemma_found_groups, next_match, part, piece_matches, run_char, run_matches, Piece, Run,
};
use crate::references::{
    function_pieces, is_snake_case, kept_references, law_merging_keeps_each_name_once,
    lemma_backtick, lemma_reference_cuts, line_references, merged, public_functions, quoted,
    reference_pieces, reference_views, references, stale_findings, stale_references, stale_views,
    unknown_references, StaleView,
};
use crate::shape::lemma_group_text;
use crate::text::{decimal, is_white_space, lines, starts_with};
use vstd::prelude::*;
use vstd::string::*;

verus! {

// ---------------------------------------------------------------------------
// References in a document
// ---------------------------------------------------------------------------

/// Every name that was found in a line is a reference with the number of the
/// line, at its place and as often as it was found, whatever the other names
/// are. Only `no_std` and names that begin with `cfg_` are none.
pub proof fn law_every_found_name_is_a_reference(
    a: Seq<Seq<char>>,
    name: Seq<char>,
    b: Seq<Seq<char>>,
    line: nat,
)
    ensures
        kept_references(Seq::empty(), line) == Seq::<(Seq<char>, nat)>::empty(),
        name != "no_std"@ && !starts_with(name, "cfg_"@) ==> kept_references(
            a + seq![name] + b,
            line,
        ) == kept_references(a, line) + seq![(name, line)] + kept_references(b, line),
        name == "no_std"@ || starts_with(name, "cfg_"@) ==> kept_references(
            a + seq![name] + b,
            line,
        ) == kept_references(a, line) + kept_references(b, line),
{
    let one = seq![name];
    assert(one.drop_last() =~= Seq::empty());
    assert(kept_references(one.drop_last(), line) =~= Seq::empty());
    lemma_kept_add(a + one, b, line);
    lemma_kept_add(a, one, line);
    if name == "no_std"@ || starts_with(name, "cfg_"@) {
        assert(kept_references(a, line) + kept_references(one, line) =~= kept_references(a, line));
    } else {
        assert(kept_references(one, line) =~= seq![(name, line)]);
    }
}

proof fn lemma_kept_add(a: Seq<Seq<char>>, b: Seq<Seq<char>>, line: nat)
    ensures
        kept_references(a + b, line) == kept_references(a, line) + kept_references(b, line),
    decreases b.len(),
{
    if b.len() == 0 {
        assert(a + b =~= a);
        assert(kept_references(a, line) + kept_references(b, line) =~= kept_references(a, line));
    } else {
        lemma_kept_add(a, b.drop_last(), line);
        assert((a + b).drop_last() =~= a + b.drop_last());
        assert((a + b).last() == b.last());
        assert(kept_references(a + b, line) =~= kept_references(a, line) + kept_references(b, line));
    }
}

/// The references of a document are those of its lines, one after another:
/// those of one more line come last and have its number.
pub proof fn law_every_line_is_looked_at(all: Seq<Seq<char>>, line: Seq<char>)
    ensures
        line_references(Seq::empty()) == Seq::<(Seq<char>, nat)>::empty(),
        line_references(all.push(line)) == line_references(all) + kept_references(
            found_groups(reference_pieces(), line),
            all.len() + 1,
        ),
{
    assert(all.push(line).drop_last() =~= all);
}

/// The references of a document of one line are those of that line, with
/// number one.
pub proof fn law_references_of_one_line(line: Seq<char>)
    requires
        !line.contains('\n'),
    ensures
        references(line) == kept_references(found_groups(reference_pieces(), line), 1),
{
    law_text_is_read_line_by_line(line, Seq::empty());
    let before = Seq::<Seq<char>>::empty();
    let found = kept_references(found_groups(reference_pieces(), line), 1);
    if line.len() > 0 {
        law_every_line_is_looked_at(before, line);
        assert(before.push(line) =~= seq![line]);
        assert(Seq::<(Seq<char>, nat)>::empty() + found =~= found);
    } else {
        assert(line =~= Seq::empty());
        lemma_reference_pieces();
        lemma_nothing_in_empty_text(reference_pieces());
        assert(lines(line) =~= Seq::empty());
        assert(found =~= Seq::empty());
    }
}

// ---------------------------------------------------------------------------
// Names between backticks
// ---------------------------------------------------------------------------

/// Where the first match ends, the search goes on as in what follows it.
proof fn lemma_first_match(
    pieces: Seq<Piece>,
    text: Seq<char>,
    first: Seq<int>,
    rest: Seq<char>,
)
    requires
        begins_with_text(pieces),
        next_match(pieces, text, 0, first),
        text.skip(first.last()) == rest,
    ensures
        found_groups(pieces, text) == seq![
            group_text(pieces, text, first, Seq::empty())->0,
        ] + found_groups(pieces, rest),
{
    let at = first.last();
    lemma_not_empty(pieces, text, first);
    let more = lemma_hits(pieces, rest);
    let far = all_moved(more, at);
    lemma_matches_back(pieces, text, at, rest, 0, more);
    let all = seq![first] + far;
    assert(all.drop_first() =~= far);
    assert(all[0] == first);
    assert(all_matches(pieces, text, 0, all));
    let groups = all.map_values(
        |cuts: Seq<int>| group_text(pieces, text, cuts, Seq::empty())->0,
    );
    let wanted = seq![group_text(pieces, text, first, Seq::empty())->0] + found_groups(
        pieces,
        rest,
    );
    assert forall|i: int| 0 <= i < all.len() implies #[trigger] groups[i] == wanted[i] by {
        if i > 0 {
            let k = i - 1;
            lemma_hits_fit(pieces, rest, 0, more, k);
            lemma_fits_back(pieces, text, at, rest, more[k]);
            assert(all[i] == moved(more[k], at));
            lemma_same_group(pieces, rest, more[k], text, all[i], Seq::empty());
        }
    }
    assert(groups =~= wanted);
    lemma_found_groups(pieces, text, groups);
}

/// Where no match begins in front of `at`, the search may begin there.
proof fn lemma_no_match_before(pieces: Seq<Piece>, text: Seq<char>, at: int, rest: Seq<char>)
    requires
        begins_with_text(pieces),
        0 <= at <= text.len(),
        text.skip(at) == rest,
        forall|cuts: Seq<int>| #[trigger] fits(pieces, text, cuts) ==> at <= cuts[0],
    ensures
        found_groups(pieces, text) == found_groups(pieces, rest),
{
    let more = lemma_hits(pieces, rest);
    let far = all_moved(more, at);
    lemma_matches_back(pieces, text, at, rest, 0, more);
    lemma_matches_earlier(pieces, text, 0, at, far);
    let groups = far.map_values(
        |cuts: Seq<int>| group_text(pieces, text, cuts, Seq::empty())->0,
    );
    let wanted = found_groups(pieces, rest);
    assert forall|i: int| 0 <= i < far.len() implies #[trigger] groups[i] == wanted[i] by {
        lemma_hits_fit(pieces, rest, 0, more, i);
        lemma_fits_back(pieces, text, at, rest, more[i]);
        assert(far[i] == moved(more[i], at));
        lemma_same_group(pieces, rest, more[i], text, far[i], Seq::empty());
    }
    assert(groups =~= wanted);
    lemma_found_groups(pieces, text, groups);
}

/// Names between backticks are found one after another: the first, and then
/// those of the text behind its second backtick.
pub proof fn law_quoted_names_are_found_one_after_another(
    front: Seq<char>,
    name: Seq<char>,
    rest: Seq<char>,
)
    requires
        !front.contains('`'),
        is_snake_case(name),
    ensures
        found_groups(reference_pieces(), front + quoted(name) + rest) == seq![name]
            + found_groups(reference_pieces(), rest),
{
    let line = front + quoted(name) + rest;
    let pieces = reference_pieces();
    let p = front.len() as int;
    let n = name.len() as int;
    let own = seq![p, p + 1, p + 1 + n, p + 2 + n];
    lemma_reference_pieces();
    lemma_backtick();
    assert(line[p] == '`' && line[p + 1 + n] == '`');
    assert(part(line, own, 0) =~= "`"@);
    assert(part(line, own, 1) =~= name);
    assert(part(line, own, 2) =~= "`"@);
    assert(fits(pieces, line, own));
    assert forall|cuts: Seq<int>| #[trigger] fits(pieces, line, cuts) && 0 <= cuts[0] implies {
        ||| own[0] < cuts[0]
        ||| own[0] == cuts[0] && (cuts == own || comes_first(own, cuts))
    } by {
        lemma_reference_cuts(line, cuts);
        if cuts[0] < p {
            assert(line[cuts[0]] == front[cuts[0]]);
            assert(front.contains(front[cuts[0]]));
        } else if cuts[0] == p {
            if cuts[2] < p + 1 + n {
                assert(line[cuts[2]] == name[cuts[2] - p - 1]);
            } else if cuts[2] > p + 1 + n {
                assert(part(line, cuts, 1)[n] == line[p + 1 + n]);
            }
            assert(cuts =~= own);
        }
    }
    assert(line.skip(own.last()) =~= rest);
    lemma_first_match(pieces, line, own, rest);
    lemma_reference_cuts(line, own);
}

/// A backtick that opens no name is passed over, and a text without
/// backticks holds no names.
pub proof fn law_other_backticks_are_passed_over(front: Seq<char>, rest: Seq<char>)
    requires
        !front.contains('`'),
        forall|name: Seq<char>, behind: Seq<char>|
            is_snake_case(name) ==> rest != #[trigger] (name + seq!['`'] + behind),
    ensures
        found_groups(reference_pieces(), front + seq!['`'] + rest) == found_groups(
            reference_pieces(),
            rest,
        ),
        found_groups(reference_pieces(), front) == Seq::<Seq<char>>::empty(),
{
    let line = front + seq!['`'] + rest;
    let pieces = reference_pieces();
    let p = front.len() as int;
    lemma_reference_pieces();
    assert forall|cuts: Seq<int>| #[trigger] fits(pieces, line, cuts) implies p + 1 <= cuts[0] by {
        lemma_reference_cuts(line, cuts);
        if cuts[0] < p {
            assert(line[cuts[0]] == front[cuts[0]]);
            assert(front.contains(front[cuts[0]]));
        } else if cuts[0] == p {
            let name = part(line, cuts, 1);
            let behind = line.skip(cuts[3]);
            assert(rest =~= name + seq!['`'] + behind);
        }
    }
    assert(line.skip(p + 1) =~= rest);
    lemma_no_match_before(pieces, line, p + 1, rest);
    assert forall|cuts: Seq<int>| #[trigger] fits(pieces, front, cuts) implies p <= cuts[0] by {
        lemma_reference_cuts(front, cuts);
        assert(front.contains(front[cuts[0]]));
    }
    assert(front.skip(p) =~= Seq::empty());
    lemma_no_match_before(pieces, front, p, Seq::empty());
    lemma_nothing_in_empty_text(pieces);
}

// ---------------------------------------------------------------------------
// Public functions
// ---------------------------------------------------------------------------

/// White space, not empty.
pub open spec fn is_gap(s: Seq<char>) -> bool {
    s.len() > 0 && forall|i: int| 0 <= i < s.len() ==> is_white_space(#[trigger] s[i])
}

/// A name of word characters.
pub open spec fn is_function_name(name: Seq<char>) -> bool {
    &&& name.len() > 0
    &&& forall|i: int| 0 <= i < name.len() ==> is_word_char(#[trigger] name[i])
}

/// The declaration of a public function, up to its name.
pub open spec fn declaration(first: Seq<char>, second: Seq<char>, name: Seq<char>) -> Seq<char> {
    "pub"@ + first + "fn"@ + second + name
}

/// What a match of the expression looks like.
proof fn lemma_function_cuts(text: Seq<char>, cuts: Seq<int>)
    requires
        fits(function_pieces(), text, cuts),
    ensures
        cuts.len() == 6,
        0 <= cuts[0] && cuts[1] == cuts[0] + 3 && cuts[1] < cuts[2] && cuts[3] == cuts[2] + 2
            && cuts[3] < cuts[4] < cuts[5] <= text.len(),
        part(text, cuts, 0) == "pub"@,
        part(text, cuts, 2) == "fn"@,
        is_gap(part(text, cuts, 1)),
        is_gap(part(text, cuts, 3)),
        is_function_name(part(text, cuts, 4)),
        group_text(function_pieces(), text, cuts, Seq::empty()) == Some(part(text, cuts, 4)),
{
    let pieces = function_pieces();
    reveal_strlit("pub");
    reveal_strlit("fn");
    lemma_cuts_ascend(pieces, text, cuts, 0, 1);
    lemma_cuts_ascend(pieces, text, cuts, 1, 2);
    lemma_cuts_ascend(pieces, text, cuts, 2, 3);
    lemma_cuts_ascend(pieces, text, cuts, 3, 4);
    lemma_cuts_ascend(pieces, text, cuts, 4, 5);
    assert(piece_matches(pieces[0], part(text, cuts, 0)));
    assert(piece_matches(pieces[1], part(text, cuts, 1)));
    assert(piece_matches(pieces[2], part(text, cuts, 2)));
    assert(piece_matches(pieces[3], part(text, cuts, 3)));
    assert(piece_matches(pieces[4], part(text, cuts, 4)));
    let first = part(text, cuts, 1);
    let second = part(text, cuts, 3);
    let name = part(text, cuts, 4);
    assert(part(text, cuts, 0).len() == cuts[1] - cuts[0] && "pub"@.len() == 3);
    assert(first.len() == cuts[2] - cuts[1]);
    assert(part(text, cuts, 2).len() == cuts[3] - cuts[2] && "fn"@.len() == 2);
    assert(second.len() == cuts[4] - cuts[3]);
    assert(name.len() == cuts[5] - cuts[4]);
    assert(run_matches(Run::Spaces, first) && run_matches(Run::Spaces, second));
    assert forall|i: int| 0 <= i < first.len() implies is_white_space(#[trigger] first[i]) by {
        assert(run_char(Run::Spaces, first[i]));
    }
    assert forall|i: int| 0 <= i < second.len() implies is_white_space(#[trigger] second[i]) by {
        assert(run_char(Run::Spaces, second[i]));
    }
    assert forall|i: int| 0 <= i < name.len() implies is_word_char(#[trigger] name[i]) by {
        assert(run_char(Run::Word, name[i]));
    }
    lemma_group_text(pieces, text, cuts, Seq::empty(), 4);
}

/// The function that a source begins with is found, and then those of what
/// follows its name.
pub proof fn law_first_function_is_found(
    first: Seq<char>,
    second: Seq<char>,
    name: Seq<char>,
    rest: Seq<char>,
)
    requires
        is_gap(first),
        is_gap(second),
        is_function_name(name),
        !is_white_space(name[0]),
        rest.len() > 0 ==> !is_word_char(rest[0]),
    ensures
        found_groups(function_pieces(), declaration(first, second, name) + rest) == seq![name]
            + found_groups(function_pieces(), rest),
{
    let text = declaration(first, second, name) + rest;
    let pieces = function_pieces();
    reveal_strlit("pub");
    reveal_strlit("fn");
    let a = 3 + first.len() as int;
    let b = a + 2 + second.len();
    let own = seq![0int, 3, a, a + 2, b, b + name.len()];
    lemma_function_pieces();
    assert(part(text, own, 0) =~= "pub"@);
    assert(part(text, own, 1) =~= first);
    assert(part(text, own, 2) =~= "fn"@);
    assert(part(text, own, 3) =~= second);
    assert(part(text, own, 4) =~= name);
    assert forall|i: int| 0 <= i < first.len() implies run_char(
        Run::Spaces,
        #[trigger] first[i],
    ) by {}
    assert forall|i: int| 0 <= i < second.len() implies run_char(
        Run::Spaces,
        #[trigger] second[i],
    ) by {}
    assert forall|i: int| 0 <= i < name.len() implies run_char(Run::Word, #[trigger] name[i]) by {}
    assert(fits(pieces, text, own));
    assert forall|cuts: Seq<int>| #[trigger] fits(pieces, text, cuts) && 0 <= cuts[0] implies {
        ||| own[0] < cuts[0]
        ||| own[0] == cuts[0] && (cuts == own || comes_first(own, cuts))
    } by {
        if cuts[0] == 0 {
            lemma_function_first(text, first, second, name, rest, own, cuts);
        }
    }
    assert(text.skip(own.last()) =~= rest);
    lemma_first_match(pieces, text, own, rest);
    lemma_function_cuts(text, own);
}

/// No other match begins where the declaration does and comes first.
proof fn lemma_function_first(
    text: Seq<char>,
    first: Seq<char>,
    second: Seq<char>,
    name: Seq<char>,
    rest: Seq<char>,
    own: Seq<int>,
    cuts: Seq<int>,
)
    requires
        is_gap(first),
        is_gap(second),
        is_function_name(name),
        !is_white_space(name[0]),
        rest.len() > 0 ==> !is_word_char(rest[0]),
        text == declaration(first, second, name) + rest,
        own.len() == 6,
        own[0] == 0 && own[1] == 3 && own[2] == 3 + first.len() && own[3] == own[2] + 2 && own[4]
            == own[3] + second.len() && own[5] == own[4] + name.len(),
        fits(function_pieces(), text, cuts),
        cuts[0] == 0,
    ensures
        cuts == own || comes_first(own, cuts),
{
    reveal_strlit("pub");
    reveal_strlit("fn");
    lemma_function_cuts(text, cuts);
    assert(part(text, cuts, 2)[0] == text[cuts[2]]);
    assert(text[own[2]] == 'f');
    if cuts[2] < own[2] {
        assert(text[cuts[2]] == first[cuts[2] - 3]);
    } else if cuts[2] > own[2] {
        assert(part(text, cuts, 1)[own[2] - 3] == text[own[2]]);
    }
    assert(text[own[4]] == name[0]);
    assert(part(text, cuts, 4)[0] == text[cuts[4]]);
    if cuts[4] < own[4] {
        assert(text[cuts[4]] == second[cuts[4] - own[3]]);
        assert(text[own[3]] == second[0]);
        assert(comes_first(own, cuts)) by {
            assert(own[4] > cuts[4]);
            assert forall|i: int| 0 <= i < 4 implies #[trigger] own[i] == cuts[i] by {}
        }
    } else if cuts[4] > own[4] {
        assert(part(text, cuts, 3)[own[4] - own[3]] == text[own[4]]);
    } else if cuts[5] < own[5] {
        assert forall|i: int| 0 <= i < 5 implies #[trigger] own[i] == cuts[i] by {}
        assert(comes_first(own, cuts));
    } else if cuts[5] > own[5] {
        assert(text[own[5]] == rest[0]);
        assert(part(text, cuts, 4)[own[5] - own[4]] == text[own[5]]);
    } else {
        assert(cuts =~= own);
    }
}

/// A public function is found wherever it is declared behind a character that
/// is neither white space nor part of a name, such as `;`, `{`, `}` or `)`:
/// between those of the source in front and those of the source behind.
pub proof fn law_every_declared_function_is_found(
    front: Seq<char>,
    c: char,
    first: Seq<char>,
    second: Seq<char>,
    name: Seq<char>,
    rest: Seq<char>,
)
    requires
        !is_white_space(c),
        !is_word_char(c),
        is_gap(first),
        is_gap(second),
        is_function_name(name),
        !is_white_space(name[0]),
        rest.len() > 0 ==> !is_word_char(rest[0]),
    ensures
        found_groups(
            function_pieces(),
            front + seq![c] + (declaration(first, second, name) + rest),
        ) == found_groups(function_pieces(), front) + (seq![name] + found_groups(
            function_pieces(),
            rest,
        )),
        public_functions(
            front + seq![c] + (declaration(first, second, name) + rest),
        ).contains(name),
{
    let pieces = function_pieces();
    let text = front + seq![c] + (declaration(first, second, name) + rest);
    reveal_strlit("pub");
    reveal_strlit("fn");
    lemma_function_pieces();
    assert(never_holds(pieces, c)) by {
        assert forall|i: int| 0 <= i < "pub"@.len() implies "pub"@[i] != c by {
            assert(is_word_char("pub"@[i]));
        }
        assert forall|i: int| 0 <= i < "fn"@.len() implies "fn"@[i] != c by {
            assert(is_word_char("fn"@[i]));
        }
        assert forall|i: int| 0 <= i < pieces.len() implies match #[trigger] pieces[i] {
            Piece::Literal(t) => !t.contains(c),
            Piece::Plain(run) => !run_char(run, c),
            Piece::Group(_, run) => !run_char(run, c),
        } by {}
    }
    law_found_groups_of_joined_texts(pieces, front, c, declaration(first, second, name) + rest);
    law_first_function_is_found(first, second, name, rest);
    let found = found_groups(pieces, text);
    let at = found_groups(pieces, front).len() as int;
    assert(found[at] == name);
    assert(found.contains(name));
    law_merging_keeps_each_name_once(seq![], found);
    assert(merged(seq![], found).contains(name));
}

/// `name` is declared as a public function in `s`, behind `front`.
pub open spec fn is_declared(
    s: Seq<char>,
    front: Seq<char>,
    first: Seq<char>,
    second: Seq<char>,
    name: Seq<char>,
    rest: Seq<char>,
) -> bool {
    is_gap(first) && is_gap(second) && is_function_name(name) && s == front + declaration(
        first,
        second,
        name,
    ) + rest
}

/// Every public function that is found is declared in the source.
pub proof fn law_found_functions_are_declared(s: Seq<char>, name: Seq<char>)
    requires
        public_functions(s).contains(name),
    ensures
        exists|front: Seq<char>, first: Seq<char>, second: Seq<char>, rest: Seq<char>| #[trigger]
            is_declared(s, front, first, second, name, rest),
{
    let pieces = function_pieces();
    lemma_function_pieces();
    let found = found_groups(pieces, s);
    law_merging_keeps_each_name_once(seq![], found);
    assert(merged(seq![], found).contains(name));
    let hits = lemma_hits(pieces, s);
    let i = choose|i: int| 0 <= i < found.len() && found[i] == name;
    lemma_hits_fit(pieces, s, 0, hits, i);
    let cuts = hits[i];
    lemma_function_cuts(s, cuts);
    let front = s.take(cuts[0]);
    let rest = s.skip(cuts[5]);
    let first = part(s, cuts, 1);
    let second = part(s, cuts, 3);
    assert(s =~= front + (part(s, cuts, 0) + first + part(s, cuts, 2) + second + part(s, cuts, 4))
        + rest);
    assert(is_declared(s, front, first, second, name, rest));
}

/// Names are merged one after another: one that is there already is passed
/// over, and another is put behind.
pub proof fn law_names_are_merged_one_after_another(
    names: Seq<Seq<char>>,
    a: Seq<Seq<char>>,
    name: Seq<char>,
)
    ensures
        merged(names, Seq::empty()) == names,
        merged(names, a).contains(name) ==> merged(names, a.push(name)) == merged(names, a),
        !merged(names, a).contains(name) ==> merged(names, a.push(name)) == merged(names, a).push(
            name,
        ),
{
    assert(a.push(name).drop_last() =~= a);
}

// ---------------------------------------------------------------------------
// Stale references
// ---------------------------------------------------------------------------

/// Every reference of a document is judged on its own: it is stale exactly
/// if no known function has its name.
pub proof fn law_every_unknown_reference_is_stale(
    path: Seq<char>,
    a: Seq<(Seq<char>, nat)>,
    name: Seq<char>,
    line: nat,
    b: Seq<(Seq<char>, nat)>,
    known: Seq<Seq<char>>,
)
    ensures
        unknown_references(path, Seq::empty(), known) == Seq::<StaleView>::empty(),
        unknown_references(path, a + seq![(name, line)] + b, known) == unknown_references(
            path,
            a,
            known,
        ) + (if known.contains(name) {
            Seq::<StaleView>::empty()
        } else {
            seq![StaleView { path, name, line }]
        }) + unknown_references(path, b, known),
{
    let one = seq![(name, line)];
    assert(one.drop_last() =~= Seq::empty());
    assert(unknown_references(path, one.drop_last(), known) =~= Seq::empty());
    lemma_unknown_add(path, a + one, b, known);
    lemma_unknown_add(path, a, one, known);
    assert(unknown_references(path, one, known) =~= if known.contains(name) {
        Seq::<StaleView>::empty()
    } else {
        seq![StaleView { path, name, line }]
    });
}

proof fn lemma_unknown_add(
    path: Seq<char>,
    a: Seq<(Seq<char>, nat)>,
    b: Seq<(Seq<char>, nat)>,
    known: Seq<Seq<char>>,
)
    ensures
        unknown_references(path, a + b, known) == unknown_references(path, a, known)
            + unknown_references(path, b, known),
    decreases b.len(),
{
    if b.len() == 0 {
        assert(a + b =~= a);
        assert(unknown_references(path, a, known) + unknown_references(path, b, known)
            =~= unknown_references(path, a, known));
    } else {
        lemma_unknown_add(path, a, b.drop_last(), known);
        assert((a + b).drop_last() =~= a + b.drop_last());
        assert((a + b).last() == b.last());
        assert(unknown_references(path, a + b, known) =~= unknown_references(path, a, known)
            + unknown_references(path, b, known));
    }
}

/// Every document is looked at: the stale references of one more come last.
pub proof fn law_every_document_is_looked_at(
    docs: Seq<TextFileView>,
    doc: TextFileView,
    known: Seq<Seq<char>>,
)
    ensures
        stale_references(Seq::empty(), known) == Seq::<StaleView>::empty(),
        stale_references(docs.push(doc), known) == stale_references(docs, known)
            + unknown_references(doc.path, references(doc.text), known),
{
    assert(docs.push(doc).drop_last() =~= docs);
}

/// Every stale reference is reported, with the path of its document as seen
/// from the root of the repository, its line and its name, and with the
/// severity of the newer rules, unless the rule is off.
pub proof fn law_every_stale_reference_is_reported(
    repo_root: Seq<char>,
    stale: Seq<StaleView>,
    config: CheckConfig,
    i: int,
)
    ensures
        !config.check_stale_refs ==> stale_findings(repo_root, stale, config).len() == 0,
        config.check_stale_refs ==> stale_findings(repo_root, stale, config).len() == stale.len(),
        config.check_stale_refs && 0 <= i < stale.len() ==> {
            let finding = stale_findings(repo_root, stale, config)[i];
            &&& finding.severity == config.new_check_severity
            &&& finding.message == relative_path(repo_root, stale[i].path) + ":"@ + decimal(
                stale[i].line,
            ) + ": stale doc reference to `"@ + stale[i].name
                + "` – no matching pub fn found in contracts"@
        },
{
}

/// The models of references and stale references hold all of them.
pub proof fn law_models_hold_every_reference(
    list: Seq<(String, usize)>,
    stale: Seq<(String, String, usize)>,
)
    ensures
        reference_views(list).len() == list.len(),
        forall|i: int|
            0 <= i < list.len() ==> (#[trigger] reference_views(list)[i]).0 == list[i].0@
                && reference_views(list)[i].1 == list[i].1,
        stale_views(stale).len() == stale.len(),
        forall|i: int|
            0 <= i < stale.len() ==> {
                let model = #[trigger] stale_views(stale)[i];
                model.path == stale[i].0@ && model.name == stale[i].1@ && model.line == stale[i].2
            },
{
}

} // verus!
