//! The orders in which texts, paths and files are listed.

use crate::files::{file_paths, law_files_are_sorted_by_path, sort_files, TextFileView};
use crate::laws::paths::slash;
use crate::order::{
    component_before, components, components_before, components_from, differ_at,
    law_dictionary_order_is_strict, law_sorting_orders_and_keeps_paths, lemma_before_total,
    lemma_components_order, path_before, segment_components, sort_paths, text_before, ComponentView,
};
use crate::text::{find_from, lemma_find_from, occurs_at};
use vstd::prelude::*;

verus! {

// ---------------------------------------------------------------------------
// Texts
// ---------------------------------------------------------------------------

/// The first character in which two texts differ decides, and what is longer
/// comes later. Of two different texts exactly one comes before the other.
pub proof fn law_the_first_difference_decides(
    front: Seq<char>,
    a: char,
    x: Seq<char>,
    b: char,
    y: Seq<char>,
    p: Seq<char>,
    q: Seq<char>,
)
    requires
        a < b,
    ensures
        p != q <==> text_before(p, q) || text_before(q, p),
        !(text_before(p, q) && text_before(q, p)),
        text_before(front + seq![a] + x, front + seq![b] + y),
        !text_before(front + seq![b] + y, front + seq![a] + x),
        text_before(front, front + seq![a] + x),
        !text_before(front + seq![a] + x, front),
        !text_before(x, x),
{
    lemma_before_total(p, q);
    if text_before(p, q) {
        law_dictionary_order_is_strict(p, q);
    }
    if text_before(q, p) {
        law_dictionary_order_is_strict(q, p);
    }
    let at = front.len() as int;
    let s = front + seq![a] + x;
    let t = front + seq![b] + y;
    assert(s[at] == a && t[at] == b);
    assert(differ_at(s, t, at));
    assert(differ_at(front, s, at));
    law_dictionary_order_is_strict(s, t);
    law_dictionary_order_is_strict(front, s);
    if text_before(x, x) {
        law_dictionary_order_is_strict(x, x);
    }
}

// ---------------------------------------------------------------------------
// Components
// ---------------------------------------------------------------------------

/// The root of an absolute path.
pub open spec fn root() -> ComponentView {
    ComponentView { rank: 0, name: Seq::empty() }
}

/// The current directory.
pub open spec fn current() -> ComponentView {
    ComponentView { rank: 1, name: Seq::empty() }
}

/// The directory above.
pub open spec fn above() -> ComponentView {
    ComponentView { rank: 2, name: Seq::empty() }
}

/// A named component.
pub open spec fn named(name: Seq<char>) -> ComponentView {
    ComponentView { rank: 3, name }
}

/// A path is taken apart at its slashes: one more segment adds one more
/// component. Slashes that follow each other or end the path add nothing,
/// nor does `.` behind a slash.
pub proof fn law_paths_are_taken_apart_at_slashes(path: Seq<char>, segment: Seq<char>)
    requires
        !segment.contains('/'),
    ensures
        components(Seq::empty()) == Seq::<ComponentView>::empty(),
        components(slash()) == seq![root()],
        path.len() > 0 && segment.len() == 0 ==> components(path + slash() + segment) == components(
            path,
        ),
        path.len() > 0 && segment == seq!['.'] ==> components(path + slash() + segment)
            == components(path),
        path.len() > 0 && segment == seq!['.', '.'] ==> components(path + slash() + segment)
            == components(path).push(above()),
        path.len() > 0 && is_plain_segment(segment) ==> components(path + slash() + segment)
            == components(path).push(named(segment)),
        is_plain_segment(segment) ==> components(slash() + segment) == seq![root(), named(segment)],
        is_plain_segment(segment) ==> components(segment) == seq![named(segment)],
        components(seq!['.']) == seq![current()],
        components(seq!['.', '.']) == seq![above()],
{
    reveal_strlit(".");
    reveal_strlit("..");
    assert("."@ =~= seq!['.']);
    assert(".."@ =~= seq!['.', '.']);
    let dot = seq!['.'];
    let dots = seq!['.', '.'];
    assert(dot != dots) by {
        assert(dot.len() == 1 && dots.len() == 2);
    }
    lemma_single_segment(dot);
    lemma_single_segment(dots);
    lemma_single_segment(segment);
    let nothing = Seq::<ComponentView>::empty();
    if path.len() > 0 {
        let whole = path + slash() + segment;
        lemma_more_segments(path, segment);
        assert(whole[0] == path[0]);
        if path[0] == '/' {
            assert(seq![root()] + (components_from(path, 0) + segment_components(segment, false))
                =~= seq![root()] + components_from(path, 0) + segment_components(segment, false));
        }
        let before = components(path);
        assert(components(whole) == before + segment_components(segment, false));
        assert(before + nothing =~= before);
        assert(before + seq![above()] =~= before.push(above()));
        assert(before + seq![named(segment)] =~= before.push(named(segment)));
    }
    assert(components(Seq::empty()) =~= nothing);
    let empty = Seq::<char>::empty();
    assert(!empty.contains('/'));
    lemma_leading_slash(empty);
    lemma_leading_slash(segment);
    assert(slash() + empty =~= slash());
    assert(seq![root()] + nothing =~= seq![root()]);
    assert(seq![root()] + seq![named(segment)] =~= seq![root(), named(segment)]);
}

/// A segment that is a name.
pub open spec fn is_plain_segment(segment: Seq<char>) -> bool {
    segment.len() > 0 && !segment.contains('/') && segment != seq!['.'] && segment != seq!['.', '.']
}

/// A path of one segment.
proof fn lemma_single_segment(segment: Seq<char>)
    requires
        !segment.contains('/'),
    ensures
        components_from(segment, 0) == segment_components(segment, true),
        components(segment) == segment_components(segment, true),
{
    lemma_find_from(segment, seq!['/'], 0);
    if find_from(segment, seq!['/'], 0) is Some {
        let i = find_from(segment, seq!['/'], 0)->0;
        assert(segment.subrange(i, i + 1)[0] == segment[i]);
        assert(seq!['/'][0] == '/');
        assert(segment.contains(segment[i]));
    }
    if segment.len() > 0 {
        assert(segment.subrange(0, segment.len() as int) =~= segment);
        assert(segment.contains(segment[0]));
    }
}

/// A segment right behind the root.
proof fn lemma_leading_slash(segment: Seq<char>)
    requires
        !segment.contains('/'),
    ensures
        components(slash() + segment) == seq![root()] + segment_components(segment, false),
{
    let s = slash() + segment;
    assert(s.subrange(0, 1) =~= seq!['/']);
    assert(occurs_at(s, seq!['/'], 0));
    lemma_find_from(s, seq!['/'], 0);
    assert(find_from(s, seq!['/'], 0) == Some(0int));
    assert(s.subrange(0, 0) =~= Seq::empty());
    assert(s.skip(1) =~= segment);
    lemma_last_segment(s, 1, segment);
    let nothing = Seq::<ComponentView>::empty();
    assert(nothing + segment_components(segment, false) =~= segment_components(segment, false));
}

/// The last segment of a path, behind a slash.
proof fn lemma_last_segment(s: Seq<char>, from: int, segment: Seq<char>)
    requires
        0 < from <= s.len(),
        s.skip(from) == segment,
        !segment.contains('/'),
    ensures
        components_from(s, from) == segment_components(segment, false),
{
    lemma_find_from(s, seq!['/'], from);
    if find_from(s, seq!['/'], from) is Some {
        let i = find_from(s, seq!['/'], from)->0;
        assert(s.subrange(i, i + 1)[0] == s[i]);
        assert(seq!['/'][0] == '/');
        assert(segment[i - from] == s[i]);
        assert(segment.contains(segment[i - from]));
    }
    if from < s.len() {
        assert(s.subrange(from, s.len() as int) =~= segment);
    }
}

/// What stands behind a slash is taken apart on its own.
proof fn lemma_components_behind(path: Seq<char>, rest: Seq<char>, from: int)
    requires
        0 <= from <= path.len(),
        path.len() > 0,
    ensures
        components_from(path + slash() + rest, from) == components_from(path, from)
            + components_from(path + slash() + rest, (path.len() + 1) as int),
    decreases path.len() - from,
{
    let s = path + slash() + rest;
    let n = path.len() as int;
    let own = components_from(s, n + 1);
    lemma_find_from(s, seq!['/'], from);
    lemma_find_from(path, seq!['/'], from);
    assert(s.subrange(n, n + 1) =~= seq!['/']);
    assert(occurs_at(s, seq!['/'], n));
    assert forall|j: int| 0 <= j < n implies #[trigger] occurs_at(s, seq!['/'], j) == occurs_at(
        path,
        seq!['/'],
        j,
    ) by {
        assert(s.subrange(j, j + 1) =~= path.subrange(j, j + 1));
    }
    let i = find_from(s, seq!['/'], from)->0;
    match find_from(path, seq!['/'], from) {
        None => {
            if i < n {
                assert(occurs_at(path, seq!['/'], i));
            }
            assert(i == n);
            assert(s.subrange(from, n) =~= path.subrange(from, n));
            if from == n {
                assert(path.subrange(from, n) =~= Seq::empty());
                assert(segment_components(path.subrange(from, n), false) =~= Seq::empty());
                assert(components_from(path, from) =~= Seq::empty());
            }
        },
        Some(k) => {
            assert(occurs_at(s, seq!['/'], k));
            if i < k {
                assert(occurs_at(path, seq!['/'], i));
            }
            assert(i == k);
            assert(s.subrange(from, k) =~= path.subrange(from, k));
            lemma_components_behind(path, rest, k + 1);
            let first = segment_components(path.subrange(from, k), from == 0);
            assert(first + (components_from(path, k + 1) + own) =~= first + components_from(
                path,
                k + 1,
            ) + own);
        },
    }
}

/// One more segment behind a slash.
proof fn lemma_more_segments(path: Seq<char>, segment: Seq<char>)
    requires
        path.len() > 0,
        !segment.contains('/'),
    ensures
        components_from(path + slash() + segment, 0) == components_from(path, 0)
            + segment_components(segment, false),
{
    let s = path + slash() + segment;
    lemma_components_behind(path, segment, 0);
    assert(s.skip((path.len() + 1) as int) =~= segment);
    lemma_last_segment(s, (path.len() + 1) as int, segment);
}

/// The components of a path come first among those of what lies below it.
proof fn lemma_components_below(path: Seq<char>, rest: Seq<char>) -> (more: Seq<ComponentView>)
    requires
        path.len() > 0,
    ensures
        components(path + slash() + rest) == components(path) + more,
{
    let s = path + slash() + rest;
    let more = components_from(s, (path.len() + 1) as int);
    lemma_components_behind(path, rest, 0);
    assert(s[0] == path[0]);
    if path[0] == '/' {
        assert(seq![root()] + (components_from(path, 0) + more) =~= seq![root()] + components_from(
            path,
            0,
        ) + more);
    }
    more
}

// ---------------------------------------------------------------------------
// Paths
// ---------------------------------------------------------------------------

/// Of two components the root comes first, then `.`, then `..`, then names,
/// and these in dictionary order.
pub proof fn law_components_are_ordered(a: Seq<char>, b: Seq<char>)
    ensures
        component_before(root(), current()),
        component_before(current(), above()),
        component_before(above(), named(a)),
        component_before(root(), named(a)),
        component_before(named(a), named(b)) <==> text_before(a, b),
        !component_before(named(a), above()) && !component_before(named(a), root()),
{
}

/// The first component in which two paths differ decides, and a path comes
/// before what lies below it. Of two paths that differ in their components
/// exactly one comes before the other.
pub proof fn law_the_first_component_decides(
    front: Seq<ComponentView>,
    a: ComponentView,
    x: Seq<ComponentView>,
    b: ComponentView,
    y: Seq<ComponentView>,
)
    requires
        component_before(a, b),
    ensures
        components_before(front + seq![a] + x, front + seq![b] + y),
        !components_before(front + seq![b] + y, front + seq![a] + x),
        components_before(front, front + seq![a] + x),
        !components_before(front + seq![a] + x, front),
        !components_before(front, front),
    decreases front.len(),
{
    let s = front + seq![a] + x;
    let t = front + seq![b] + y;
    lemma_components_order(s, t);
    lemma_components_order(front, s);
    lemma_components_order(front, front);
    lemma_components_order(seq![a], seq![b]);
    if front.len() > 0 {
        let less = front.drop_first();
        law_the_first_component_decides(less, a, x, b, y);
        assert(s.drop_first() =~= less + seq![a] + x);
        assert(t.drop_first() =~= less + seq![b] + y);
        assert(s[0] == front[0] && t[0] == front[0]);
    } else {
        assert(s[0] == a && t[0] == b);
        if a == b {
            assert(component_before(a, a));
            if a.rank == a.rank {
                law_dictionary_order_is_strict(a.name, a.name);
            }
        }
    }
}

/// Paths are compared by their components. Names in one directory are listed
/// in dictionary order, whatever lies below them, and a directory is listed
/// before what lies in it.
pub proof fn law_paths_are_listed_by_their_components(
    dir: Seq<char>,
    a: Seq<char>,
    b: Seq<char>,
    p: Seq<char>,
    q: Seq<char>,
)
    requires
        dir.len() > 0,
        is_plain_segment(a),
        is_plain_segment(b),
        text_before(a, b),
    ensures
        path_before(dir + slash() + a, dir + slash() + b),
        !path_before(dir + slash() + b, dir + slash() + a),
        path_before(dir + slash() + a + slash() + p, dir + slash() + b),
        path_before(dir + slash() + a, dir + slash() + b + slash() + q),
        path_before(dir + slash() + a + slash() + p, dir + slash() + b + slash() + q),
        path_before(dir, dir + slash() + a),
        path_before(p, q) <==> components_before(components(p), components(q)),
        path_before(p, q) || path_before(q, p) <==> components(p) != components(q),
{
    law_paths_are_taken_apart_at_slashes(dir, a);
    law_paths_are_taken_apart_at_slashes(dir, b);
    let front = components(dir);
    let nothing = Seq::<ComponentView>::empty();
    let x = lemma_components_below(dir + slash() + a, p);
    let y = lemma_components_below(dir + slash() + b, q);
    law_the_first_component_decides(front, named(a), nothing, named(b), nothing);
    law_the_first_component_decides(front, named(a), x, named(b), nothing);
    law_the_first_component_decides(front, named(a), nothing, named(b), y);
    law_the_first_component_decides(front, named(a), x, named(b), y);
    assert(front.push(named(a)) + x =~= front + seq![named(a)] + x);
    assert(front.push(named(b)) + y =~= front + seq![named(b)] + y);
    assert(front.push(named(a)) =~= front + seq![named(a)] + nothing);
    assert(front.push(named(b)) =~= front + seq![named(b)] + nothing);
    lemma_components_order(components(p), components(q));
    lemma_components_order(components(q), components(p));
}

/// A sorted list of paths holds each path as often as it was given, and none
/// in front of one that is listed before it.
pub proof fn law_sorted_paths_are_in_order(list: Seq<Seq<char>>, i: int, j: int)
    ensures
        sort_paths(list).to_multiset() == list.to_multiset(),
        sort_paths(list).len() == list.len(),
        0 <= i < j < list.len() ==> !path_before(sort_paths(list)[j], sort_paths(list)[i]),
{
    broadcast use vstd::seq_lib::group_to_multiset_ensures;

    law_sorting_orders_and_keeps_paths(list);
    assert(sort_paths(list).len() == sort_paths(list).to_multiset().len());
    assert(list.len() == list.to_multiset().len());
}

/// A sorted list of files holds each file as often as it was given, and none
/// in front of one whose path is listed before its own.
pub proof fn law_sorted_files_are_in_order(list: Seq<TextFileView>, i: int, j: int)
    ensures
        sort_files(list).to_multiset() == list.to_multiset(),
        sort_files(list).len() == list.len(),
        0 <= i < j < list.len() ==> !path_before(sort_files(list)[j].path, sort_files(list)[i].path),
{
    broadcast use vstd::seq_lib::group_to_multiset_ensures;

    law_files_are_sorted_by_path(list);
    let paths = file_paths(list);
    law_sorted_paths_are_in_order(paths, i, j);
    assert(sort_files(list).len() == sort_files(list).to_multiset().len());
    assert(list.len() == list.to_multiset().len());
    if 0 <= i < j < list.len() {
        assert(file_paths(sort_files(list))[i] == sort_files(list)[i].path);
        assert(file_paths(sort_files(list))[j] == sort_files(list)[j].path);
    }
}

} // verus!
