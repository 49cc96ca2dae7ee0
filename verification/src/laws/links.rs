//! Which links a text holds, and which paths they lead to.

use crate::laws::paths::{law_paths_are_joined_with_a_slash, slash};
use crate::laws::text::{
    is_blank, law_text_in_front_of_a_character, law_trimming_takes_white_space_off_both_ends,
    lemma_blank_ends, lemma_search_behind,
};
use crate::links::{
    followed_links, is_external_or_anchor, link_targets, link_targets_from, resolved_link,
    target_in,
};
use crate::paths::joined_path;
use crate::text::{
    before_char, contains_text, find_from, is_white_space, lemma_find_from, occurs_at, starts_with,
    trim,
};
use vstd::prelude::*;

verus! {

// ---------------------------------------------------------------------------
// Resolving
// ---------------------------------------------------------------------------

/// A text without white space at its ends, and not empty.
pub open spec fn is_solid(s: Seq<char>) -> bool {
    s.len() > 0 && !is_white_space(s[0]) && !is_white_space(s.last())
}

/// A link target leads to the path that it names, put behind the directory of
/// the file that it stands in. White space around the path and a fragment
/// behind it make no difference. Whatever the path is, `./name.md` and
/// `../name.md` among them, it is followed.
pub proof fn law_links_lead_to_the_path_they_name(
    base_dir: Seq<char>,
    front: Seq<char>,
    path: Seq<char>,
    rest: Seq<char>,
    fragment: Seq<char>,
)
    requires
        is_blank(front),
        is_blank(rest),
        is_solid(path),
        !path.contains('#'),
    ensures
        resolved_link(base_dir, front + path + rest) == Some(joined_path(base_dir, path)),
        resolved_link(base_dir, front + path + rest + seq!['#'] + fragment) == Some(
            joined_path(base_dir, path),
        ),
        base_dir.len() > 0 && base_dir.last() != '/' && path[0] != '/' ==> resolved_link(
            base_dir,
            front + path + rest,
        ) == Some(base_dir + slash() + path),
        path[0] == '/' ==> resolved_link(base_dir, front + path + rest) == Some(path),
{
    let whole = front + path + rest;
    assert(!whole.contains('#')) by {
        assert forall|i: int| 0 <= i < whole.len() implies whole[i] != '#' by {
            if i < front.len() {
                assert(whole[i] == front[i]);
            } else if i < front.len() + path.len() {
                assert(path.contains(path[i - front.len()]));
            } else {
                assert(whole[i] == rest[i - front.len() - path.len()]);
            }
        }
    }
    law_text_in_front_of_a_character(whole, '#', fragment);
    law_trimming_takes_white_space_off_both_ends(front, path, rest);
    law_paths_are_joined_with_a_slash(base_dir, path);
}

/// A link target leads nowhere exactly if nothing but white space stands in
/// front of its first `#`.
pub proof fn law_only_blank_links_lead_nowhere(base_dir: Seq<char>, target: Seq<char>)
    ensures
        resolved_link(base_dir, target) is None <==> forall|i: int|
            0 <= i < target.len() && !is_white_space(#[trigger] target[i]) ==> exists|j: int|
                0 <= j <= i && target[j] == '#',
{
    lemma_find_from(target, seq!['#'], 0);
    let front = before_char(target, '#');
    let parts = lemma_blank_ends(front);
    assert forall|j: int| #[trigger] occurs_at(target, seq!['#'], j) <==> 0 <= j < target.len()
        && target[j] == '#' by {
        lemma_one_character(target, '#', j);
    }
    assert forall|i: int| 0 <= i < front.len() implies front[i] == target[i] by {}
    if is_blank(front) {
        assert forall|i: int|
            0 <= i < target.len() && !is_white_space(#[trigger] target[i]) implies exists|j: int|
            0 <= j <= i && target[j] == '#' by {
            if i < front.len() {
                assert(is_white_space(front[i]));
            } else {
                assert(target[front.len() as int] == '#');
            }
        }
    } else {
        let i = choose|i: int| 0 <= i < front.len() && !is_white_space(#[trigger] front[i]);
        assert(!is_white_space(target[i]));
        assert forall|j: int| 0 <= j <= i implies target[j] != '#' by {
            assert(!occurs_at(target, seq!['#'], j));
        }
    }
}

proof fn lemma_one_character(s: Seq<char>, c: char, j: int)
    ensures
        occurs_at(s, seq![c], j) <==> 0 <= j < s.len() && s[j] == c,
{
    if 0 <= j < s.len() {
        let own = s.subrange(j, j + 1);
        assert(own[0] == s[j]);
        if s[j] == c {
            assert(own =~= seq![c]);
        } else {
            assert(seq![c][0] == c);
        }
    }
}

// ---------------------------------------------------------------------------
// Following
// ---------------------------------------------------------------------------

/// What the targets begin with that name no file to follow.
pub open spec fn foreign_beginnings() -> Seq<Seq<char>> {
    seq!["#"@, "http://"@, "https://"@, "mailto:"@, "file://"@, "ftp://"@]
}

/// A target is not followed exactly if it is blank or begins, white space
/// aside, in one of these ways.
pub proof fn law_only_foreign_targets_are_not_followed(
    front: Seq<char>,
    inner: Seq<char>,
    rest: Seq<char>,
)
    requires
        is_blank(front),
        is_blank(rest),
        inner.len() == 0 || is_solid(inner),
    ensures
        is_external_or_anchor(front + inner + rest) <==> inner.len() == 0 || exists|k: int|
            0 <= k < foreign_beginnings().len() && starts_with(
                inner,
                #[trigger] foreign_beginnings()[k],
            ),
{
    let all = foreign_beginnings();
    law_trimming_takes_white_space_off_both_ends(front, inner, rest);
    assert(all[0] == "#"@ && all[1] == "http://"@ && all[2] == "https://"@);
    assert(all[3] == "mailto:"@ && all[4] == "file://"@ && all[5] == "ftp://"@);
    if is_external_or_anchor(front + inner + rest) && inner.len() > 0 {
        let k: int = if starts_with(inner, all[0]) {
            0
        } else if starts_with(inner, all[1]) {
            1
        } else if starts_with(inner, all[2]) {
            2
        } else if starts_with(inner, all[3]) {
            3
        } else if starts_with(inner, all[4]) {
            4
        } else {
            5
        };
        assert(starts_with(inner, all[k]));
    }
}

/// Every link is followed on its own: of two lists of targets the paths of
/// the first come first, and then those of the second. A single target that
/// is not foreign gives the path that it leads to.
pub proof fn law_every_link_is_followed(
    base_dir: Seq<char>,
    a: Seq<Seq<char>>,
    b: Seq<Seq<char>>,
    target: Seq<char>,
)
    ensures
        followed_links(base_dir, a + b) == followed_links(base_dir, a) + followed_links(base_dir, b),
        !is_external_or_anchor(target) && resolved_link(base_dir, target) is Some
            ==> followed_links(base_dir, seq![target]) == seq![resolved_link(base_dir, target)->0],
        is_external_or_anchor(target) || resolved_link(base_dir, target) is None
            ==> followed_links(base_dir, seq![target]) == Seq::<Seq<char>>::empty(),
    decreases b.len(),
{
    let one = seq![target];
    assert(one.drop_last() =~= Seq::empty());
    assert(followed_links(base_dir, one.drop_last()) =~= Seq::empty());
    if b.len() == 0 {
        assert(a + b =~= a);
        assert(followed_links(base_dir, a) + followed_links(base_dir, b) =~= followed_links(
            base_dir,
            a,
        ));
    } else {
        law_every_link_is_followed(base_dir, a, b.drop_last(), target);
        assert((a + b).drop_last() =~= a + b.drop_last());
        assert((a + b).last() == b.last());
        assert(followed_links(base_dir, a + b) =~= followed_links(base_dir, a) + followed_links(
            base_dir,
            b,
        ));
    }
}

// ---------------------------------------------------------------------------
// Finding
// ---------------------------------------------------------------------------

/// What opens the target of a link.
pub open spec fn opening() -> Seq<char> {
    seq![']', '(']
}

/// Links are found one after another: the first stands between the first
/// `](` and the next `)`, and the others are those of the text behind it. A
/// blank target is passed over.
pub proof fn law_links_are_found_one_after_another(
    front: Seq<char>,
    inner: Seq<char>,
    rest: Seq<char>,
)
    requires
        !contains_text(front, opening()),
        !inner.contains(')'),
    ensures
        !is_blank(inner) ==> link_targets(front + opening() + inner + seq![')'] + rest) == seq![
            trim(inner),
        ] + link_targets(rest),
        is_blank(inner) ==> link_targets(front + opening() + inner + seq![')'] + rest)
            == link_targets(rest),
{
    let s = front + opening() + inner + seq![')'] + rest;
    let begin = front + opening();
    let end = (begin.len() + inner.len()) as int;
    lemma_first_opening(front, inner + seq![')'] + rest);
    assert(begin + (inner + seq![')'] + rest) =~= s);
    lemma_first_closing(begin, inner, rest);
    assert(s.subrange(begin.len() as int, end) =~= inner);
    lemma_behind_bracket(s, end);
    assert(s.skip(end + 1) =~= rest);
    lemma_targets_behind(s, end + 1, rest, 0);
    let parts = lemma_blank_ends(inner);
    let found = target_in(inner);
    lemma_find_from(s, opening(), 0);
    assert(link_targets(s) == found + link_targets(rest));
    if is_blank(inner) {
        assert(found + link_targets(rest) =~= link_targets(rest));
    }
}

/// A text without `](` holds no link, nor does a `](` that no `)` follows.
pub proof fn law_open_links_are_none(front: Seq<char>, inner: Seq<char>)
    requires
        !contains_text(front, opening()),
        !inner.contains(')'),
    ensures
        link_targets(front) == Seq::<Seq<char>>::empty(),
        link_targets(front + opening() + inner) == Seq::<Seq<char>>::empty(),
{
    let s = front + opening() + inner;
    let start = (front.len() + 2) as int;
    lemma_first_opening(front, inner);
    lemma_find_from(s, seq![')'], start);
    if find_from(s, seq![')'], start) is Some {
        let j = find_from(s, seq![')'], start)->0;
        lemma_one_character(s, ')', j);
        assert(s[j] == inner[j - start]);
        assert(inner.contains(inner[j - start]));
    }
    lemma_find_from(front, opening(), 0);
    if find_from(front, opening(), 0) is Some {
        assert(occurs_at(front, opening(), find_from(front, opening(), 0)->0));
    }
}

/// No `](` stands in front of the one that was put there.
proof fn lemma_no_opening_before(front: Seq<char>, rest: Seq<char>, j: int)
    requires
        !occurs_at(front, opening(), j),
        0 <= j < front.len(),
    ensures
        !occurs_at(front + opening() + rest, opening(), j),
{
    let s = front + opening() + rest;
    let at = front.len() as int;
    let own = s.subrange(j, j + 2);
    assert(own[0] == s[j] && own[1] == s[j + 1]);
    if occurs_at(s, opening(), j) {
        assert(own == opening());
        assert(opening()[1] == '(');
        if j + 1 < at {
            assert(front.subrange(j, j + 2) =~= own);
        } else {
            assert(s[at] == opening()[0]);
        }
    }
}

/// The place that a search finds.
proof fn lemma_found_at(s: Seq<char>, pat: Seq<char>, from: int, at: int)
    requires
        0 <= from <= at,
        occurs_at(s, pat, at),
        forall|j: int| from <= j < at ==> !#[trigger] occurs_at(s, pat, j),
    ensures
        find_from(s, pat, from) == Some(at),
{
    lemma_find_from(s, pat, from);
}

proof fn lemma_first_opening(front: Seq<char>, rest: Seq<char>)
    requires
        !contains_text(front, opening()),
    ensures
        find_from(front + opening() + rest, opening(), 0) == Some(front.len() as int),
{
    let s = front + opening() + rest;
    let at = front.len() as int;
    assert(s.subrange(at, at + opening().len()) =~= opening());
    assert forall|j: int| 0 <= j < at implies !#[trigger] occurs_at(s, opening(), j) by {
        assert(!occurs_at(front, opening(), j));
        lemma_no_opening_before(front, rest, j);
    }
    lemma_found_at(s, opening(), 0, at);
}

/// The bracket that closes what was put in front of it.
proof fn lemma_first_closing(front: Seq<char>, inner: Seq<char>, rest: Seq<char>)
    requires
        !inner.contains(')'),
    ensures
        find_from(front + inner + seq![')'] + rest, seq![')'], front.len() as int) == Some(
            (front.len() + inner.len()) as int,
        ),
{
    let s = front + inner + seq![')'] + rest;
    let start = front.len() as int;
    let end = (front.len() + inner.len()) as int;
    lemma_one_character(s, ')', end);
    assert forall|j: int| start <= j < end implies !#[trigger] occurs_at(s, seq![')'], j) by {
        lemma_one_character(s, ')', j);
        assert(s[j] == inner[j - start]);
        assert(inner.contains(inner[j - start]));
    }
    lemma_found_at(s, seq![')'], start, end);
}

/// No link begins at a closing bracket.
proof fn lemma_behind_bracket(s: Seq<char>, end: int)
    requires
        0 <= end < s.len(),
        s[end] == ')',
    ensures
        link_targets_from(s, end) == link_targets_from(s, end + 1),
{
    lemma_find_from(s, opening(), end);
    lemma_find_from(s, opening(), end + 1);
    if occurs_at(s, opening(), end) {
        assert(s.subrange(end, end + 2)[0] == s[end]);
        assert(opening()[0] == ']');
    }
    assert(find_from(s, opening(), end) == find_from(s, opening(), end + 1));
}

proof fn lemma_targets_behind(s: Seq<char>, at: int, rest: Seq<char>, from: int)
    requires
        0 <= at <= s.len(),
        s.skip(at) == rest,
        0 <= from,
    ensures
        link_targets_from(s, at + from) == link_targets_from(rest, from),
    decreases rest.len() - from,
{
    lemma_search_behind(s, at, rest, opening(), from);
    lemma_find_from(rest, opening(), from);
    if find_from(rest, opening(), from) is Some {
        let i = find_from(rest, opening(), from)->0;
        lemma_search_behind(s, at, rest, seq![')'], i + 2);
        lemma_find_from(rest, seq![')'], i + 2);
        if find_from(rest, seq![')'], i + 2) is Some {
            let end = find_from(rest, seq![')'], i + 2)->0;
            assert(s.subrange(at + i + 2, at + end) =~= rest.subrange(i + 2, end));
            lemma_targets_behind(s, at, rest, end);
        }
    }
}

} // verus!
