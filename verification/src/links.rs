//! Links in markdown text: finding them and resolving them to paths.

use crate::paths::{join_path, joined_path};
use crate::text::{
    before_char, find_from, find_text, has_prefix, lemma_find_from, lemma_trim, occurs_at,
    starts_with, to_chars, trim, trim_range, trimmed, views,
};
use vstd::prelude::*;

verus! {

// ---------------------------------------------------------------------------
// Models
// ---------------------------------------------------------------------------

/// The link target in a pair of round brackets, if it is not blank.
pub open spec fn target_in(inner: Seq<char>) -> Seq<Seq<char>> {
    if trim(inner).len() == 0 {
        seq![]
    } else {
        seq![trim(inner)]
    }
}

/// The link targets of `s` from position `from` on: what stands between `](`
/// and the next `)`. The search goes on from that bracket.
pub open spec fn link_targets_from(s: Seq<char>, from: int) -> Seq<Seq<char>>
    decreases s.len() - from,
{
    if from < 0 {
        seq![]
    } else {
        proof {
            lemma_find_from(s, seq![']', '('], from);
        }
        match find_from(s, seq![']', '('], from) {
            None => seq![],
            Some(i) => {
                proof {
                    lemma_find_from(s, seq![')'], i + 2);
                }
                match find_from(s, seq![')'], i + 2) {
                    None => seq![],
                    Some(end) => target_in(s.subrange(i + 2, end)) + link_targets_from(s, end),
                }
            },
        }
    }
}

/// The link targets of a markdown text, in the order in which they stand.
pub open spec fn link_targets(s: Seq<char>) -> Seq<Seq<char>> {
    link_targets_from(s, 0)
}

/// A target that names no file to follow: an external address, a mail link
/// or a place on the same page.
pub open spec fn is_external_or_anchor(target: Seq<char>) -> bool {
    let t = trim(target);
    ||| t.len() == 0
    ||| starts_with(t, "#"@)
    ||| starts_with(t, "http://"@)
    ||| starts_with(t, "https://"@)
    ||| starts_with(t, "mailto:"@)
    ||| starts_with(t, "file://"@)
    ||| starts_with(t, "ftp://"@)
}

/// The path that a link target names, as seen from the directory of the file
/// that it stands in. What follows a `#` is left out.
pub open spec fn resolved_link(base_dir: Seq<char>, target: Seq<char>) -> Option<Seq<char>> {
    let path = trim(before_char(target, '#'));
    if path.len() == 0 {
        None
    } else {
        Some(joined_path(base_dir, path))
    }
}

/// The paths that the links among `targets` lead to, for a file in
/// `base_dir`.
pub open spec fn followed_links(base_dir: Seq<char>, targets: Seq<Seq<char>>) -> Seq<Seq<char>>
    decreases targets.len(),
{
    if targets.len() == 0 {
        seq![]
    } else {
        let before = followed_links(base_dir, targets.drop_last());
        if is_external_or_anchor(targets.last()) {
            before
        } else {
            match resolved_link(base_dir, targets.last()) {
                Some(path) => before.push(path),
                None => before,
            }
        }
    }
}

// ---------------------------------------------------------------------------
// Laws
// ---------------------------------------------------------------------------

/// `target` stands, with white space around it at most, between a `](` of `s`
/// and the next `)`.
pub open spec fn is_linked(s: Seq<char>, target: Seq<char>) -> bool {
    exists|start: int, end: int| #[trigger] is_link_at(s, start, end, target)
}

/// A `](` stands in `s` at `i`.
pub open spec fn opens_at(s: Seq<char>, i: int) -> bool {
    occurs_at(s, seq![']', '('], i)
}

/// The link whose round brackets hold `s[start..end]` has that target.
pub open spec fn is_link_at(s: Seq<char>, start: int, end: int, target: Seq<char>) -> bool {
    &&& opens_at(s, start - 2)
    &&& find_from(s, seq![')'], start) == Some(end)
    &&& target == trim(s.subrange(start, end))
}

/// A target is found only between `](` and the next `)`. It is not empty and
/// has no white space at its ends.
pub proof fn law_targets_are_linked(s: Seq<char>, i: int)
    requires
        0 <= i < link_targets(s).len(),
    ensures
        is_linked(s, link_targets(s)[i]),
        link_targets(s)[i].len() > 0,
        trim(link_targets(s)[i]) == link_targets(s)[i],
{
    lemma_targets_are_linked(s, 0, i);
    let target = link_targets(s)[i];
    let (start, end) = choose|start: int, end: int| #[trigger] is_link_at(s, start, end, target);
    lemma_trim(s.subrange(start, end));
}

proof fn lemma_targets_are_linked(s: Seq<char>, from: int, i: int)
    requires
        0 <= from,
        0 <= i < link_targets_from(s, from).len(),
    ensures
        is_linked(s, link_targets_from(s, from)[i]),
        link_targets_from(s, from)[i].len() > 0,
    decreases s.len() - from,
{
    lemma_find_from(s, seq![']', '('], from);
    let at = find_from(s, seq![']', '('], from)->0;
    lemma_find_from(s, seq![')'], at + 2);
    let end = find_from(s, seq![')'], at + 2)->0;
    let first = target_in(s.subrange(at + 2, end));
    if i < first.len() {
        assert(is_link_at(s, at + 2, end, link_targets_from(s, from)[i]));
    } else {
        assert(link_targets_from(s, from)[i] == link_targets_from(s, end)[i - first.len()]);
        lemma_targets_are_linked(s, end, i - first.len());
    }
}

/// A `](` that is never closed leads nowhere: a text with no `)` behind any
/// of them has no targets.
pub proof fn law_unclosed_links_are_ignored(s: Seq<char>)
    requires
        forall|i: int, j: int|
            #![trigger opens_at(s, i), s[j]]
            opens_at(s, i) && i < j < s.len() ==> s[j] != ')',
    ensures
        link_targets(s) == Seq::<Seq<char>>::empty(),
{
    if find_from(s, seq![']', '('], 0) is Some {
        let at = find_from(s, seq![']', '('], 0)->0;
        lemma_find_from(s, seq![']', '('], 0);
        lemma_find_from(s, seq![')'], at + 2);
        assert(opens_at(s, at));
        if find_from(s, seq![')'], at + 2) is Some {
            let end = find_from(s, seq![')'], at + 2)->0;
            assert(s.subrange(end, end + 1)[0] == s[end]);
        }
    }
}

/// Only links to local files are followed: every path that a file leads to is
/// named by a target that is no external address, no mail link and no place
/// on the same page.
pub proof fn law_followed_links_are_local(
    base_dir: Seq<char>,
    targets: Seq<Seq<char>>,
    path: Seq<char>,
)
    ensures
        followed_links(base_dir, targets).contains(path) <==> exists|i: int|
            0 <= i < targets.len() && !is_external_or_anchor(#[trigger] targets[i])
                && resolved_link(base_dir, targets[i]) == Some(path),
    decreases targets.len(),
{
    if targets.len() > 0 {
        let front = targets.drop_last();
        let before = followed_links(base_dir, front);
        let after = followed_links(base_dir, targets);
        law_followed_links_are_local(base_dir, front, path);
        if before.contains(path) {
            let k = choose|k: int| 0 <= k < before.len() && before[k] == path;
            assert(after[k] == path);
            let i = choose|i: int|
                0 <= i < front.len() && !is_external_or_anchor(#[trigger] front[i])
                    && resolved_link(base_dir, front[i]) == Some(path);
            assert(targets[i] == front[i]);
        }
        if after.contains(path) && !before.contains(path) {
            let k = choose|k: int| 0 <= k < after.len() && after[k] == path;
            if k < before.len() {
                assert(before[k] == path);
            }
            assert(targets[targets.len() - 1] == targets.last());
        }
        if exists|i: int|
            0 <= i < targets.len() && !is_external_or_anchor(#[trigger] targets[i])
                && resolved_link(base_dir, targets[i]) == Some(path) {
            let i = choose|i: int|
                0 <= i < targets.len() && !is_external_or_anchor(#[trigger] targets[i])
                    && resolved_link(base_dir, targets[i]) == Some(path);
            if i < front.len() {
                assert(front[i] == targets[i]);
            } else {
                assert(after[before.len() as int] == path);
            }
        }
    }
}

// ---------------------------------------------------------------------------
// Executable functions
// ---------------------------------------------------------------------------

/// The targets of the links (`[text](target)`) in a markdown text.
///
/// This looks for the delimiters and does not read markdown any further. A
/// link that it misses is only not followed.
pub fn extract_markdown_link_targets(content: &str) -> (targets: Vec<String>)
    ensures
        views(targets@) == link_targets(content@),
{
    let chars: Vec<char> = to_chars(content);
    let opening: Vec<char> = vec![']', '('];
    let closing: Vec<char> = vec![')'];
    assert(opening@ =~= seq![']', '(']);
    assert(closing@ =~= seq![')']);
    let length: usize = chars.len();
    let mut targets: Vec<String> = Vec::new();
    let mut from: usize = 0;
    assert(views(targets@) + link_targets_from(content@, 0) =~= link_targets(content@));
    loop
        invariant
            chars@ == content@,
            opening@ == seq![']', '('],
            closing@ == seq![')'],
            from <= length,
            length == chars@.len(),
            views(targets@) + link_targets_from(content@, from as int) == link_targets(content@),
        ensures
            views(targets@) == link_targets(content@),
        decreases length - from,
    {
        let ghost before = views(targets@);
        let start: usize = match find_text(&chars, &opening, from) {
            Some(i) => i + 2,
            None => {
                assert(before + Seq::<Seq<char>>::empty() =~= before);
                break ;
            },
        };
        let end: usize = match find_text(&chars, &closing, start) {
            Some(i) => i,
            None => {
                assert(before + Seq::<Seq<char>>::empty() =~= before);
                break ;
            },
        };
        let target: String = trim_range(&chars, start, end);
        let ghost found = target_in(content@.subrange(start as int, end as int));
        if !target.as_str().is_empty() {
            targets.push(target);
            assert(views(targets@) =~= before + found);
        } else {
            assert(before + found =~= before);
        }
        assert(before + (found + link_targets_from(content@, end as int)) =~= (before + found)
            + link_targets_from(content@, end as int));
        from = end;
    }
    targets
}

/// Whether a link target names no file to follow: an external address, a
/// mail link or a place on the same page.
pub fn is_external_or_anchor_link(target: &str) -> (external: bool)
    ensures
        external == is_external_or_anchor(target@),
{
    let t: String = trimmed(target);
    t.as_str().is_empty() || has_prefix(&t, "#") || has_prefix(&t, "http://") || has_prefix(
        &t,
        "https://",
    ) || has_prefix(&t, "mailto:") || has_prefix(&t, "file://") || has_prefix(&t, "ftp://")
}

/// The path that a link target names, as seen from `base_dir`. What follows a
/// `#` is left out; where nothing is left there is no path.
pub fn resolve_relative_link(base_dir: &str, target: &str) -> (path: Option<String>)
    ensures
        match resolved_link(base_dir@, target@) {
            Some(p) => path is Some && path->0@ == p,
            None => path is None,
        },
{
    let chars: Vec<char> = to_chars(target);
    let mark: Vec<char> = vec!['#'];
    assert(mark@ =~= seq!['#']);
    let end: usize = match find_text(&chars, &mark, 0) {
        Some(i) => i,
        None => chars.len(),
    };
    assert(before_char(target@, '#') =~= chars@.subrange(0, end as int));
    let inner: String = trim_range(&chars, 0, end);
    if inner.as_str().is_empty() {
        None
    } else {
        Some(join_path(base_dir, &inner))
    }
}

/// The paths that the links in `content` lead to, for a file in `base_dir`.
pub fn linked_paths(base_dir: &str, content: &str) -> (paths: Vec<String>)
    ensures
        views(paths@) == followed_links(base_dir@, link_targets(content@)),
{
    let targets: Vec<String> = extract_markdown_link_targets(content);
    let ghost all = views(targets@);
    let mut paths: Vec<String> = Vec::new();
    let mut i: usize = 0;
    assert(views(paths@) =~= Seq::empty());
    while i < targets.len()
        invariant
            i <= targets@.len(),
            all == views(targets@),
            views(paths@) == followed_links(base_dir@, all.take(i as int)),
        decreases targets@.len() - i,
    {
        let ghost before = views(paths@);
        proof {
            assert(all.take(i + 1).drop_last() =~= all.take(i as int));
            assert(all.take(i + 1).last() == targets@[i as int]@);
        }
        if !is_external_or_anchor_link(&targets[i]) {
            match resolve_relative_link(base_dir, &targets[i]) {
                Some(path) => {
                    let ghost added = path@;
                    paths.push(path);
                    assert(views(paths@) =~= before.push(added));
                },
                None => {},
            }
        }
        i = i + 1;
    }
    assert(all.take(all.len() as int) =~= all);
    paths
}

} // verus!
