//! References to functions in documents, held against the public functions
//! of the contracts.

use crate::files::{
    borrowed_file_views, file_paths, law_same_files_are_sorted_alike, sort_files, sorted_files,
    text_file_views, TextFileView,
};
use crate::findings::{
    finding_views, stale_ref, stale_ref_message, CheckConfig, Finding, FindingView,
};
use crate::order::are_distinct_paths;
use crate::paths::{relative_path, relative_to};
use crate::patterns::{
    all_matches, are_first_groups, first_groups, fits, found_groups, group_text, is_plain,
    is_snake_char, is_snake_start, lemma_cuts_ascend, lemma_found_groups, lemma_found_groups_exist,
    part, piece_matches, syntax, Piece, Run, BACKTICK_REFERENCE, PUBLIC_FUNCTION,
};
use crate::text::{
    contains_text, has_prefix, lines, list_contains, occurs_at, same_text, split_lines, starts_with,
    views,
};
use vstd::prelude::*;
use vstd::string::*;

pub use crate::files::TextFile;

verus! {

// ---------------------------------------------------------------------------
// Models
// ---------------------------------------------------------------------------

/// The pieces of the expression for an identifier between backticks.
pub open spec fn reference_pieces() -> Seq<Piece> {
    seq![
        Piece::Literal("`"@),
        Piece::Group(Seq::empty(), Run::Snake),
        Piece::Literal("`"@),
    ]
}

/// The pieces of the expression for the name of a public function.
pub open spec fn function_pieces() -> Seq<Piece> {
    seq![
        Piece::Literal("pub"@),
        Piece::Plain(Run::Spaces),
        Piece::Literal("fn"@),
        Piece::Plain(Run::Spaces),
        Piece::Group(Seq::empty(), Run::Word),
    ]
}

/// An identifier that is known not to be a function.
pub open spec fn is_skipped(name: Seq<char>) -> bool {
    name == "no_std"@ || starts_with(name, "cfg_"@)
}

/// The names in `names` that may be functions, each with the line.
pub open spec fn kept_references(names: Seq<Seq<char>>, line: nat) -> Seq<(Seq<char>, nat)>
    decreases names.len(),
{
    if names.len() == 0 {
        seq![]
    } else {
        let before = kept_references(names.drop_last(), line);
        if is_skipped(names.last()) {
            before
        } else {
            before.push((names.last(), line))
        }
    }
}

/// The references in the lines of a document, with their line numbers. The
/// first line has number one.
pub open spec fn line_references(lines: Seq<Seq<char>>) -> Seq<(Seq<char>, nat)>
    decreases lines.len(),
{
    if lines.len() == 0 {
        seq![]
    } else {
        line_references(lines.drop_last()) + kept_references(
            found_groups(reference_pieces(), lines.last()),
            lines.len(),
        )
    }
}

/// The references in a document.
pub open spec fn references(content: Seq<char>) -> Seq<(Seq<char>, nat)> {
    line_references(lines(content))
}

/// `names` with `more` put behind it, each name at its first place only.
pub open spec fn merged(names: Seq<Seq<char>>, more: Seq<Seq<char>>) -> Seq<Seq<char>>
    decreases more.len(),
{
    if more.len() == 0 {
        names
    } else {
        let before = merged(names, more.drop_last());
        if before.contains(more.last()) {
            before
        } else {
            before.push(more.last())
        }
    }
}

/// The names of the public functions of a source file, in the order in which
/// they first stand there.
pub open spec fn public_functions(content: Seq<char>) -> Seq<Seq<char>> {
    merged(seq![], found_groups(function_pieces(), content))
}

/// The names of the public functions of all source files.
pub open spec fn known_functions(sources: Seq<Seq<char>>) -> Seq<Seq<char>>
    decreases sources.len(),
{
    if sources.len() == 0 {
        seq![]
    } else {
        merged(known_functions(sources.drop_last()), public_functions(sources.last()))
    }
}

/// A reference to a function that does not exist.
pub struct StaleView {
    pub path: Seq<char>,
    pub name: Seq<char>,
    pub line: nat,
}

/// The references among `found`, those of the document at `path`, that are
/// not to a known function.
pub open spec fn unknown_references(
    path: Seq<char>,
    found: Seq<(Seq<char>, nat)>,
    known: Seq<Seq<char>>,
) -> Seq<StaleView>
    decreases found.len(),
{
    if found.len() == 0 {
        seq![]
    } else {
        let before = unknown_references(path, found.drop_last(), known);
        let (name, line) = found.last();
        if known.contains(name) {
            before
        } else {
            before.push(StaleView { path, name, line })
        }
    }
}

/// The references of all documents that are not to a known function.
pub open spec fn stale_references(docs: Seq<TextFileView>, known: Seq<Seq<char>>) -> Seq<StaleView>
    decreases docs.len(),
{
    if docs.len() == 0 {
        seq![]
    } else {
        stale_references(docs.drop_last(), known) + unknown_references(
            docs.last().path,
            references(docs.last().text),
            known,
        )
    }
}

/// The finding on a stale reference.
pub open spec fn stale_finding(
    repo_root: Seq<char>,
    stale: StaleView,
    config: CheckConfig,
) -> FindingView {
    FindingView {
        severity: config.new_check_severity,
        message: stale_ref_message(relative_path(repo_root, stale.path), stale.line, stale.name),
    }
}

/// The findings on stale references, unless the rule is turned off.
pub open spec fn stale_findings(
    repo_root: Seq<char>,
    stale: Seq<StaleView>,
    config: CheckConfig,
) -> Seq<FindingView> {
    if config.check_stale_refs {
        stale.map_values(|s: StaleView| stale_finding(repo_root, s, config))
    } else {
        seq![]
    }
}

// ---------------------------------------------------------------------------
// The expressions
// ---------------------------------------------------------------------------

proof fn lemma_reference_syntax()
    ensures
        syntax(reference_pieces()) == BACKTICK_REFERENCE@,
        is_plain(reference_pieces()),
{
    reveal_with_fuel(syntax, 5);
    reveal_strlit("`");
    reveal_strlit("(");
    reveal_strlit(")");
    reveal_strlit("[a-z_][a-z0-9_]*");
    reveal_strlit(r"`([a-z_][a-z0-9_]*)`");
    assert(syntax(reference_pieces()) =~= BACKTICK_REFERENCE@);
}

proof fn lemma_function_syntax()
    ensures
        syntax(function_pieces()) == PUBLIC_FUNCTION@,
        is_plain(function_pieces()),
{
    reveal_with_fuel(syntax, 7);
    reveal_strlit("pub");
    reveal_strlit("fn");
    reveal_strlit("(");
    reveal_strlit(")");
    reveal_strlit(r"\s+");
    reveal_strlit(r"\w+");
    reveal_strlit(r"pub\s+fn\s+(\w+)");
    assert(syntax(function_pieces()) =~= PUBLIC_FUNCTION@);
}

// ---------------------------------------------------------------------------
// Laws
// ---------------------------------------------------------------------------

/// A snake_case identifier.
pub open spec fn is_snake_case(name: Seq<char>) -> bool {
    &&& name.len() > 0
    &&& is_snake_start(name[0])
    &&& forall|i: int| 0 <= i < name.len() ==> is_snake_char(#[trigger] name[i])
}

/// `name` between backticks.
pub open spec fn quoted(name: Seq<char>) -> Seq<char> {
    seq!['`'] + name + seq!['`']
}

/// The groups that the expression finds are snake_case identifiers that stand
/// between backticks.
proof fn lemma_groups_are_quoted(line: Seq<char>, from: int, hits: Seq<Seq<int>>, i: int)
    requires
        all_matches(reference_pieces(), line, from, hits),
        0 <= i < hits.len(),
    ensures
        is_snake_case(group_text(reference_pieces(), line, hits[i], Seq::empty())->0),
        contains_text(
            line,
            quoted(group_text(reference_pieces(), line, hits[i], Seq::empty())->0),
        ),
    decreases i,
{
    if i > 0 {
        lemma_groups_are_quoted(line, hits[0].last(), hits.drop_first(), i - 1);
    } else {
        let cuts = hits[0];
        lemma_reference_cuts(line, cuts);
        let name = part(line, cuts, 1);
        assert(line.subrange(cuts[0], cuts[0] + quoted(name).len()) =~= quoted(name)) by {
            assert forall|k: int| 0 <= k < quoted(name).len() implies line[cuts[0] + k]
                == #[trigger] quoted(name)[k] by {
                if 0 < k <= name.len() {
                    assert(name[k - 1] == line[cuts[1] + k - 1]);
                }
            }
        }
        assert(occurs_at(line, quoted(name), cuts[0]));
    }
}

/// Every reference is a snake_case identifier that stands between backticks
/// in the line that it is reported for, and is none of those that are known
/// not to be functions.
pub proof fn law_references_stand_in_their_line(all: Seq<Seq<char>>, i: int)
    requires
        0 <= i < line_references(all).len(),
    ensures
        1 <= line_references(all)[i].1 <= all.len(),
        is_snake_case(line_references(all)[i].0),
        contains_text(all[line_references(all)[i].1 - 1], quoted(line_references(all)[i].0)),
        !is_skipped(line_references(all)[i].0),
    decreases all.len(),
{
    let front = all.drop_last();
    let before = line_references(front);
    if i < before.len() {
        law_references_stand_in_their_line(front, i);
        assert(line_references(all)[i] == before[i]);
    } else {
        let line = all.last();
        let names = found_groups(reference_pieces(), line);
        assert(line_references(all)[i] == kept_references(names, all.len())[i - before.len()]);
        let k = lemma_kept_references(names, all.len(), i - before.len());
        assert(all[all.len() - 1] == line);
        lemma_references_exist(line);
        let hits = choose|hits: Seq<Seq<int>>| #[trigger]
            all_matches(reference_pieces(), line, 0, hits) && names == hits.map_values(
                |cuts: Seq<int>| group_text(reference_pieces(), line, cuts, Seq::empty())->0,
            );
        lemma_groups_are_quoted(line, 0, hits, k);
    }
}

/// A line has a list of references.
pub proof fn lemma_references_exist(line: Seq<char>)
    ensures
        are_first_groups(
            reference_pieces(),
            line,
            found_groups(reference_pieces(), line),
        ),
{
    let pieces = reference_pieces();
    assert forall|cuts: Seq<int>| #[trigger] fits(pieces, line, cuts) implies cuts[0]
        < cuts.last() by {
        lemma_reference_cuts(line, cuts);
    }
    lemma_found_groups_exist(pieces, line);
}

/// The backtick literal is one character.
pub proof fn lemma_backtick()
    ensures
        "`"@ == seq!['`'],
        "`"@.len() == 1,
        "`"@[0] == '`',
{
    reveal_strlit("`");
    assert("`"@ =~= seq!['`']);
}

/// What a match of an identifier between backticks looks like.
pub proof fn lemma_reference_cuts(line: Seq<char>, cuts: Seq<int>)
    requires
        fits(reference_pieces(), line, cuts),
    ensures
        cuts.len() == 4,
        0 <= cuts[0] < cuts[1] < cuts[2] < cuts[3] <= line.len(),
        cuts[1] == cuts[0] + 1,
        cuts[3] == cuts[2] + 1,
        line[cuts[0]] == '`',
        line[cuts[2]] == '`',
        is_snake_case(part(line, cuts, 1)),
        group_text(reference_pieces(), line, cuts, Seq::empty()) == Some(part(line, cuts, 1)),
{
    let pieces = reference_pieces();
    lemma_backtick();
    lemma_cuts_ascend(pieces, line, cuts, 0, 1);
    lemma_cuts_ascend(pieces, line, cuts, 1, 2);
    lemma_cuts_ascend(pieces, line, cuts, 2, 3);
    let first = part(line, cuts, 0);
    let name = part(line, cuts, 1);
    let last = part(line, cuts, 2);
    assert(piece_matches(pieces[0], first));
    assert(piece_matches(pieces[1], name));
    assert(piece_matches(pieces[2], last));
    assert(first == "`"@ && last == "`"@);
    assert(first.len() == cuts[1] - cuts[0] && last.len() == cuts[3] - cuts[2]);
    assert(first[0] == line[cuts[0]] && last[0] == line[cuts[2]]);
    assert forall|k: int| 0 <= k < name.len() implies is_snake_char(#[trigger] name[k]) by {}
    reveal_with_fuel(group_text, 3);
    assert(pieces.drop_first()[0] == pieces[1]);
    assert(part(line, cuts.drop_first(), 0) == part(line, cuts, 1));
}

/// The first identifier between backticks in a line is found: where no
/// backtick stands in front of it, it is the first of the list.
pub proof fn law_first_quoted_identifier_is_found(
    front: Seq<char>,
    name: Seq<char>,
    rest: Seq<char>,
)
    requires
        is_snake_case(name),
        forall|i: int| 0 <= i < front.len() ==> front[i] != '`',
    ensures
        found_groups(reference_pieces(), front + quoted(name) + rest).len() > 0,
        found_groups(reference_pieces(), front + quoted(name) + rest)[0] == name,
{
    let line = front + quoted(name) + rest;
    let pieces = reference_pieces();
    reveal_strlit("`");
    lemma_references_exist(line);
    let names = found_groups(pieces, line);
    let hits = choose|hits: Seq<Seq<int>>| #[trigger]
        all_matches(pieces, line, 0, hits) && names == hits.map_values(
            |cuts: Seq<int>| group_text(pieces, line, cuts, Seq::empty())->0,
        );
    let p = front.len() as int;
    let n = name.len() as int;
    let own = seq![p, p + 1, p + 1 + n, p + 2 + n];
    assert(line[p] == '`' && line[p + 1 + n] == '`');
    assert(fits(pieces, line, own)) by {
        assert(part(line, own, 0) =~= "`"@);
        assert(part(line, own, 1) =~= name);
        assert(part(line, own, 2) =~= "`"@);
    }
    if hits.len() > 0 {
        let cuts = hits[0];
        lemma_reference_cuts(line, cuts);
        if cuts[0] < p {
            assert(line[cuts[0]] == front[cuts[0]]);
        }
        assert(cuts[0] == p);
        assert(cuts[1] == p + 1);
        if cuts[2] < p + 1 + n {
            assert(line[cuts[2]] == name[cuts[2] - p - 1]);
        } else if cuts[2] > p + 1 + n {
            assert(part(line, cuts, 1)[n] == line[p + 1 + n]);
            assert(is_snake_char(part(line, cuts, 1)[n]));
        }
        assert(part(line, cuts, 1) =~= name);
        assert(names[0] == group_text(pieces, line, cuts, Seq::empty())->0);
    }
}

/// A reference that was kept is one of the names.
proof fn lemma_kept_references(names: Seq<Seq<char>>, line: nat, i: int) -> (k: int)
    requires
        0 <= i < kept_references(names, line).len(),
    ensures
        0 <= k < names.len(),
        kept_references(names, line)[i] == (names[k], line),
        !is_skipped(names[k]),
    decreases names.len(),
{
    let before = kept_references(names.drop_last(), line);
    if i < before.len() {
        lemma_kept_references(names.drop_last(), line, i)
    } else {
        names.len() - 1
    }
}

/// A list of names put together from two has every name of both, and none
/// twice if the first had none twice.
pub proof fn law_merging_keeps_each_name_once(names: Seq<Seq<char>>, more: Seq<Seq<char>>)
    requires
        names.no_duplicates(),
    ensures
        merged(names, more).no_duplicates(),
        forall|name: Seq<char>| #[trigger]
            merged(names, more).contains(name) <==> names.contains(name) || more.contains(name),
    decreases more.len(),
{
    if more.len() > 0 {
        let front = more.drop_last();
        let before = merged(names, front);
        let after = merged(names, more);
        law_merging_keeps_each_name_once(names, front);
        assert forall|name: Seq<char>| #[trigger] after.contains(name) <==> names.contains(name)
            || more.contains(name) by {
            if front.contains(name) {
                let k = choose|k: int| 0 <= k < front.len() && front[k] == name;
                assert(more[k] == name);
            }
            if more.contains(name) {
                let k = choose|k: int| 0 <= k < more.len() && more[k] == name;
                if k < front.len() {
                    assert(front[k] == name);
                }
            }
            if before.contains(name) {
                let k = choose|k: int| 0 <= k < before.len() && before[k] == name;
                assert(after[k] == name);
            }
            if after.contains(name) && !before.contains(name) {
                let k = choose|k: int| 0 <= k < after.len() && after[k] == name;
                if k < before.len() {
                    assert(before[k] == name);
                }
                assert(name == more.last());
            }
            if name == more.last() && !before.contains(name) {
                assert(after[before.len() as int] == name);
            }
            assert(more[more.len() - 1] == more.last());
        }
    }
}

/// The known functions are the public functions of all sources, each once.
pub proof fn law_known_functions_are_those_of_all_sources(sources: Seq<Seq<char>>)
    ensures
        known_functions(sources).no_duplicates(),
        forall|name: Seq<char>| #[trigger]
            known_functions(sources).contains(name) <==> exists|i: int|
                0 <= i < sources.len() && #[trigger] public_functions(sources[i]).contains(name),
    decreases sources.len(),
{
    if sources.len() > 0 {
        let front = sources.drop_last();
        let known = known_functions(sources);
        law_known_functions_are_those_of_all_sources(front);
        law_merging_keeps_each_name_once(known_functions(front), public_functions(sources.last()));
        assert forall|name: Seq<char>| #[trigger] known.contains(name) <==> exists|i: int|
            0 <= i < sources.len() && #[trigger] public_functions(sources[i]).contains(name) by {
            if known_functions(front).contains(name) {
                let i = choose|i: int|
                    0 <= i < front.len() && #[trigger] public_functions(front[i]).contains(name);
                assert(public_functions(sources[i]).contains(name));
            }
            if public_functions(sources.last()).contains(name) {
                assert(public_functions(sources[sources.len() - 1]).contains(name));
            }
            if exists|i: int|
                0 <= i < sources.len() && #[trigger] public_functions(sources[i]).contains(name) {
                let i = choose|i: int|
                    0 <= i < sources.len() && #[trigger] public_functions(sources[i]).contains(name);
                if i < front.len() {
                    assert(public_functions(front[i]).contains(name));
                }
            }
        }
    }
}

/// A reference is reported as stale exactly if it stands in a document and no
/// source has a public function of that name.
pub proof fn law_stale_references_have_no_function(
    docs: Seq<TextFileView>,
    sources: Seq<Seq<char>>,
    stale: StaleView,
)
    ensures
        stale_references(docs, known_functions(sources)).contains(stale) <==> {
            &&& exists|d: int|
                0 <= d < docs.len() && #[trigger] docs[d].path == stale.path && references(
                    docs[d].text,
                ).contains((stale.name, stale.line))
            &&& forall|i: int|
                0 <= i < sources.len() ==> !(#[trigger] public_functions(sources[i])).contains(
                    stale.name,
                )
        },
{
    let known = known_functions(sources);
    law_known_functions_are_those_of_all_sources(sources);
    lemma_stale_references(docs, known, stale);
    assert(known.contains(stale.name) <==> exists|i: int|
        0 <= i < sources.len() && #[trigger] public_functions(sources[i]).contains(stale.name));
}

proof fn lemma_stale_references(docs: Seq<TextFileView>, known: Seq<Seq<char>>, stale: StaleView)
    ensures
        stale_references(docs, known).contains(stale) <==> !known.contains(stale.name) && exists|
            d: int,
        |
            0 <= d < docs.len() && #[trigger] docs[d].path == stale.path && references(
                docs[d].text,
            ).contains((stale.name, stale.line)),
    decreases docs.len(),
{
    if docs.len() > 0 {
        let front = docs.drop_last();
        let last = docs.last();
        let before = stale_references(front, known);
        let found = unknown_references(last.path, references(last.text), known);
        let all = stale_references(docs, known);
        lemma_stale_references(front, known, stale);
        lemma_unknown_references(last.path, references(last.text), known, stale);
        if before.contains(stale) {
            let k = choose|k: int| 0 <= k < before.len() && before[k] == stale;
            assert(all[k] == stale);
            let d = choose|d: int|
                0 <= d < front.len() && #[trigger] front[d].path == stale.path && references(
                    front[d].text,
                ).contains((stale.name, stale.line));
            assert(docs[d].path == stale.path);
        }
        if found.contains(stale) {
            let k = choose|k: int| 0 <= k < found.len() && found[k] == stale;
            assert(all[before.len() + k] == stale);
            assert(docs[docs.len() - 1].path == stale.path);
        }
        if all.contains(stale) && !before.contains(stale) {
            let k = choose|k: int| 0 <= k < all.len() && all[k] == stale;
            if k < before.len() {
                assert(before[k] == stale);
            } else {
                assert(found[k - before.len()] == stale);
            }
        }
        if exists|d: int|
            0 <= d < docs.len() && #[trigger] docs[d].path == stale.path && references(
                docs[d].text,
            ).contains((stale.name, stale.line)) {
            let d = choose|d: int|
                0 <= d < docs.len() && #[trigger] docs[d].path == stale.path && references(
                    docs[d].text,
                ).contains((stale.name, stale.line));
            if d < front.len() {
                assert(front[d].path == stale.path);
            }
        }
    }
}

proof fn lemma_unknown_references(
    path: Seq<char>,
    found: Seq<(Seq<char>, nat)>,
    known: Seq<Seq<char>>,
    stale: StaleView,
)
    ensures
        unknown_references(path, found, known).contains(stale) <==> stale.path == path
            && !known.contains(stale.name) && found.contains((stale.name, stale.line)),
    decreases found.len(),
{
    if found.len() > 0 {
        let front = found.drop_last();
        let before = unknown_references(path, front, known);
        let all = unknown_references(path, found, known);
        let item = (stale.name, stale.line);
        lemma_unknown_references(path, front, known, stale);
        if front.contains(item) {
            let k = choose|k: int| 0 <= k < front.len() && front[k] == item;
            assert(found[k] == item);
        }
        if found.contains(item) && !front.contains(item) {
            let k = choose|k: int| 0 <= k < found.len() && found[k] == item;
            if k < front.len() {
                assert(front[k] == item);
            }
            assert(found.last() == item);
        }
        if before.contains(stale) {
            let k = choose|k: int| 0 <= k < before.len() && before[k] == stale;
            assert(all[k] == stale);
        }
        if all.contains(stale) && !before.contains(stale) {
            let k = choose|k: int| 0 <= k < all.len() && all[k] == stale;
            if k < before.len() {
                assert(before[k] == stale);
            }
            assert(found[found.len() - 1] == item);
        }
        if found.last() == item && !known.contains(stale.name) && stale.path == path {
            assert(all[before.len() as int] == stale);
        }
    }
}

/// Which documents and sources there are decides what is stale, not the order
/// in which they were found.
pub proof fn law_stale_references_ignore_listing_order(
    docs: Seq<TextFileView>,
    other_docs: Seq<TextFileView>,
    sources: Seq<Seq<char>>,
    other_sources: Seq<Seq<char>>,
)
    requires
        are_distinct_paths(file_paths(docs)),
        are_distinct_paths(file_paths(other_docs)),
        forall|doc: TextFileView| #[trigger] docs.contains(doc) <==> other_docs.contains(doc),
        forall|text: Seq<char>| #[trigger]
            sources.contains(text) <==> other_sources.contains(text),
    ensures
        stale_references(sort_files(docs), known_functions(sources)) == stale_references(
            sort_files(other_docs),
            known_functions(other_sources),
        ),
{
    law_same_files_are_sorted_alike(docs, other_docs);
    let known = known_functions(sources);
    let other = known_functions(other_sources);
    assert forall|name: Seq<char>| #[trigger] known.contains(name) <==> other.contains(name) by {
        lemma_known_in_other(sources, other_sources, name);
        lemma_known_in_other(other_sources, sources, name);
    }
    lemma_same_known(sort_files(docs), known, other);
}

proof fn lemma_known_in_other(
    sources: Seq<Seq<char>>,
    other: Seq<Seq<char>>,
    name: Seq<char>,
)
    requires
        forall|text: Seq<char>| #[trigger] sources.contains(text) ==> other.contains(text),
    ensures
        known_functions(sources).contains(name) ==> known_functions(other).contains(name),
{
    law_known_functions_are_those_of_all_sources(sources);
    law_known_functions_are_those_of_all_sources(other);
    if known_functions(sources).contains(name) {
        let i = choose|i: int|
            0 <= i < sources.len() && #[trigger] public_functions(sources[i]).contains(name);
        assert(sources.contains(sources[i]));
        let j = choose|j: int| 0 <= j < other.len() && other[j] == sources[i];
        assert(public_functions(other[j]).contains(name));
    }
}

proof fn lemma_same_known(docs: Seq<TextFileView>, known: Seq<Seq<char>>, other: Seq<Seq<char>>)
    requires
        forall|name: Seq<char>| #[trigger] known.contains(name) <==> other.contains(name),
    ensures
        stale_references(docs, known) == stale_references(docs, other),
    decreases docs.len(),
{
    if docs.len() > 0 {
        lemma_same_known(docs.drop_last(), known, other);
        lemma_same_unknown(docs.last().path, references(docs.last().text), known, other);
    }
}

proof fn lemma_same_unknown(
    path: Seq<char>,
    found: Seq<(Seq<char>, nat)>,
    known: Seq<Seq<char>>,
    other: Seq<Seq<char>>,
)
    requires
        forall|name: Seq<char>| #[trigger] known.contains(name) <==> other.contains(name),
    ensures
        unknown_references(path, found, known) == unknown_references(path, found, other),
    decreases found.len(),
{
    if found.len() > 0 {
        lemma_same_unknown(path, found.drop_last(), known, other);
        assert(known.contains(found.last().0) <==> other.contains(found.last().0));
    }
}

// ---------------------------------------------------------------------------
// Executable functions
// ---------------------------------------------------------------------------

/// The models of a list of references.
pub open spec fn reference_views(list: Seq<(String, usize)>) -> Seq<(Seq<char>, nat)> {
    list.map_values(|r: (String, usize)| (r.0@, r.1 as nat))
}

/// The models of a list of stale references.
pub open spec fn stale_views(list: Seq<(String, String, usize)>) -> Seq<StaleView> {
    list.map_values(
        |r: (String, String, usize)| StaleView { path: r.0@, name: r.1@, line: r.2 as nat },
    )
}

/// Adds the names in `names` that may be functions to `references`, each with
/// the line.
pub fn keep_references(references: &mut Vec<(String, usize)>, names: &Vec<String>, line: usize)
    ensures
        reference_views(final(references)@) == reference_views(old(references)@) + kept_references(
            views(names@),
            line as nat,
        ),
{
    let ghost start = reference_views(references@);
    let ghost all = views(names@);
    let mut i: usize = 0;
    assert(start + kept_references(all.take(0), line as nat) =~= start);
    while i < names.len()
        invariant
            i <= names@.len(),
            all == views(names@),
            reference_views(references@) == start + kept_references(
                all.take(i as int),
                line as nat,
            ),
        decreases names@.len() - i,
    {
        let ghost before = reference_views(references@);
        proof {
            assert(all.take(i + 1).drop_last() =~= all.take(i as int));
            assert(all.take(i + 1).last() == names@[i as int]@);
        }
        if !same_text(&names[i], "no_std") && !has_prefix(&names[i], "cfg_") {
            references.push((names[i].clone(), line));
            assert(reference_views(references@) =~= before.push(
                (names@[i as int]@, line as nat),
            ));
            assert(before.push((names@[i as int]@, line as nat)) =~= start + kept_references(
                all.take(i as int),
                line as nat,
            ).push((names@[i as int]@, line as nat)));
        }
        i = i + 1;
    }
    assert(all.take(all.len() as int) =~= all);
}

/// The snake_case identifiers between backticks in a document, each with the
/// number of its line. Identifiers that are known not to be functions are
/// left out.
pub fn extract_backtick_references(content: &str) -> (found: Vec<(String, usize)>)
    ensures
        reference_views(found@) == references(content@),
{
    let rows: Vec<String> = split_lines(content);
    let ghost all = views(rows@);
    let mut found: Vec<(String, usize)> = Vec::new();
    let mut i: usize = 0;
    assert(reference_views(found@) =~= Seq::empty());
    proof {
        lemma_reference_syntax();
    }
    while i < rows.len()
        invariant
            i <= rows@.len(),
            all == views(rows@),
            syntax(reference_pieces()) == BACKTICK_REFERENCE@,
            is_plain(reference_pieces()),
            reference_views(found@) == line_references(all.take(i as int)),
        decreases rows@.len() - i,
    {
        let names: Vec<String> = first_groups(BACKTICK_REFERENCE, &rows[i]);
        proof {
            lemma_found_groups(reference_pieces(), rows@[i as int]@, views(names@));
            assert(all.take(i + 1).drop_last() =~= all.take(i as int));
            assert(all.take(i + 1).last() == rows@[i as int]@);
        }
        keep_references(&mut found, &names, i + 1);
        i = i + 1;
    }
    assert(all.take(all.len() as int) =~= all);
    found
}

/// Adds each of `more` to `names` that is not there yet.
pub fn merge_names(names: &mut Vec<String>, more: &Vec<String>)
    ensures
        views(final(names)@) == merged(views(old(names)@), views(more@)),
{
    let ghost start = views(names@);
    let ghost all = views(more@);
    let mut i: usize = 0;
    while i < more.len()
        invariant
            i <= more@.len(),
            all == views(more@),
            views(names@) == merged(start, all.take(i as int)),
        decreases more@.len() - i,
    {
        let ghost before = views(names@);
        proof {
            assert(all.take(i + 1).drop_last() =~= all.take(i as int));
            assert(all.take(i + 1).last() == more@[i as int]@);
        }
        if !list_contains(names, &more[i]) {
            names.push(more[i].clone());
            assert(views(names@) =~= before.push(more@[i as int]@));
        }
        i = i + 1;
    }
    assert(all.take(all.len() as int) =~= all);
}

/// The names of the public functions of a source file, each once, in the
/// order in which they first stand there.
pub fn extract_contract_functions(content: &str) -> (names: Vec<String>)
    ensures
        views(names@) == public_functions(content@),
        views(names@).no_duplicates(),
{
    let mut names: Vec<String> = Vec::new();
    assert(views(names@) =~= Seq::empty());
    proof {
        lemma_function_syntax();
    }
    let found: Vec<String> = first_groups(PUBLIC_FUNCTION, content);
    proof {
        lemma_found_groups(function_pieces(), content@, views(found@));
        law_merging_keeps_each_name_once(seq![], views(found@));
    }
    merge_names(&mut names, &found);
    names
}

/// The names of the public functions of all sources, each once.
pub fn collect_contract_fns(sources: &Vec<String>) -> (names: Vec<String>)
    ensures
        views(names@) == known_functions(views(sources@)),
{
    let mut names: Vec<String> = Vec::new();
    let ghost all = views(sources@);
    let mut i: usize = 0;
    assert(views(names@) =~= Seq::empty());
    while i < sources.len()
        invariant
            i <= sources@.len(),
            all == views(sources@),
            views(names@) == known_functions(all.take(i as int)),
        decreases sources@.len() - i,
    {
        let more: Vec<String> = extract_contract_functions(&sources[i]);
        proof {
            assert(all.take(i + 1).drop_last() =~= all.take(i as int));
            assert(all.take(i + 1).last() == sources@[i as int]@);
        }
        merge_names(&mut names, &more);
        i = i + 1;
    }
    assert(all.take(all.len() as int) =~= all);
    names
}

/// Adds the references among `found`, those of the document at `path`, that
/// are not to a known function to `stale`.
pub fn keep_unknown(
    stale: &mut Vec<(String, String, usize)>,
    path: &str,
    found: &Vec<(String, usize)>,
    known: &Vec<String>,
)
    ensures
        stale_views(final(stale)@) == stale_views(old(stale)@) + unknown_references(
            path@,
            reference_views(found@),
            views(known@),
        ),
{
    let ghost start = stale_views(stale@);
    let ghost all = reference_views(found@);
    let mut i: usize = 0;
    assert(start + unknown_references(path@, all.take(0), views(known@)) =~= start);
    while i < found.len()
        invariant
            i <= found@.len(),
            all == reference_views(found@),
            stale_views(stale@) == start + unknown_references(
                path@,
                all.take(i as int),
                views(known@),
            ),
        decreases found@.len() - i,
    {
        let ghost before = stale_views(stale@);
        let ghost item = StaleView {
            path: path@,
            name: found@[i as int].0@,
            line: found@[i as int].1 as nat,
        };
        proof {
            assert(all.take(i + 1).drop_last() =~= all.take(i as int));
            assert(all.take(i + 1).last() == (item.name, item.line));
        }
        if !list_contains(known, &found[i].0) {
            stale.push((path.to_owned(), found[i].0.clone(), found[i].1));
            assert(stale_views(stale@) =~= before.push(item));
            assert(before.push(item) =~= start + unknown_references(
                path@,
                all.take(i as int),
                views(known@),
            ).push(item));
        }
        i = i + 1;
    }
    assert(all.take(all.len() as int) =~= all);
}

/// The references in `docs` to functions that none of `sources` has: the path
/// of the document, the name and the line. The documents are gone through in
/// the order of their paths.
pub fn find_stale_references(docs: &Vec<TextFile>, sources: &Vec<String>) -> (stale: Vec<
    (String, String, usize),
>)
    ensures
        stale_views(stale@) == stale_references(
            sort_files(text_file_views(docs@)),
            known_functions(views(sources@)),
        ),
{
    let known: Vec<String> = collect_contract_fns(sources);
    let docs: Vec<&TextFile> = sorted_files(docs);
    let ghost all = borrowed_file_views(docs@);
    let mut stale: Vec<(String, String, usize)> = Vec::new();
    let mut i: usize = 0;
    assert(stale_views(stale@) =~= Seq::empty());
    while i < docs.len()
        invariant
            i <= docs@.len(),
            all == borrowed_file_views(docs@),
            stale_views(stale@) == stale_references(all.take(i as int), views(known@)),
        decreases docs@.len() - i,
    {
        let found: Vec<(String, usize)> = extract_backtick_references(&docs[i].text);
        proof {
            assert(all.take(i + 1).drop_last() =~= all.take(i as int));
            assert(all.take(i + 1).last() == docs@[i as int]@);
        }
        keep_unknown(&mut stale, &docs[i].path, &found, &known);
        i = i + 1;
    }
    assert(all.take(all.len() as int) =~= all);
    stale
}

/// The documents of a repository and the sources of its contracts.
#[derive(Debug)]
pub struct DocTree {
    /// The markdown files under `docs/` that could be read.
    pub docs: Vec<TextFile>,
    /// The texts of the Rust files under `contracts/` that could be read.
    pub sources: Vec<String>,
}

/// The findings on stale references. There are none where the rule is turned
/// off, or where the repository lacks `docs/` or `contracts/` and so has no
/// tree.
pub fn check_stale_doc_references(
    repo_root: &str,
    tree: Option<&DocTree>,
    config: &CheckConfig,
) -> (findings: Vec<Finding>)
    ensures
        finding_views(findings@) == match tree {
            Some(t) => stale_findings(
                repo_root@,
                stale_references(
                    sort_files(text_file_views(t.docs@)),
                    known_functions(views(t.sources@)),
                ),
                *config,
            ),
            None => Seq::empty(),
        },
{
    let mut findings: Vec<Finding> = Vec::new();
    assert(finding_views(findings@) =~= Seq::empty());
    if !config.check_stale_refs {
        return findings;
    }
    let stale: Vec<(String, String, usize)> = match tree {
        Some(t) => find_stale_references(&t.docs, &t.sources),
        None => return findings,
    };
    let ghost wanted = stale_findings(repo_root@, stale_views(stale@), *config);
    let mut i: usize = 0;
    while i < stale.len()
        invariant
            i <= stale@.len(),
            config.check_stale_refs,
            wanted == stale_findings(repo_root@, stale_views(stale@), *config),
            finding_views(findings@) == wanted.take(i as int),
        decreases stale@.len() - i,
    {
        let ghost before = finding_views(findings@);
        findings.push(
            Finding {
                severity: config.new_check_severity,
                message: stale_ref(&relative_to(repo_root, &stale[i].0), stale[i].2, &stale[i].1),
            },
        );
        assert(finding_views(findings@) =~= before.push(wanted[i as int]));
        assert(wanted.take(i + 1) =~= before.push(wanted[i as int]));
        i = i + 1;
    }
    assert(wanted.take(wanted.len() as int) =~= wanted);
    findings
}

} // verus!
