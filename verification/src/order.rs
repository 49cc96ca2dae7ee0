//! The orders in which texts and paths are listed.

use crate::paths::{extension, has_extension};
use crate::text::{find_from, find_text, lemma_find_from, same_text, text_of, to_chars, views};
use vstd::prelude::*;

verus! {

// ---------------------------------------------------------------------------
// Dictionary order
// ---------------------------------------------------------------------------

/// `a` comes before `b` in dictionary order.
pub open spec fn text_before(a: Seq<char>, b: Seq<char>) -> bool {
    exists|k: int| #[trigger] differ_at(a, b, k)
}

/// `a` and `b` agree up to `k`, where `a` ends or has the smaller character.
pub open spec fn differ_at(a: Seq<char>, b: Seq<char>, k: int) -> bool {
    &&& 0 <= k <= a.len()
    &&& k < b.len()
    &&& forall|i: int| 0 <= i < k ==> a[i] == b[i]
    &&& k == a.len() || a[k] < b[k]
}

/// Dictionary order is transitive.
pub proof fn lemma_before_transitive(a: Seq<char>, b: Seq<char>, c: Seq<char>)
    requires
        text_before(a, b),
        text_before(b, c),
    ensures
        text_before(a, c),
{
    let j = choose|k: int| #[trigger] differ_at(a, b, k);
    let k = choose|k: int| #[trigger] differ_at(b, c, k);
    assert(differ_at(a, c, if j < k { j } else { k }));
}

/// No text comes before itself, nor two before each other.
pub proof fn law_dictionary_order_is_strict(a: Seq<char>, b: Seq<char>)
    requires
        text_before(a, b),
    ensures
        !text_before(b, a),
        a != b,
{
    let j = choose|k: int| #[trigger] differ_at(a, b, k);
    if text_before(b, a) {
        let k = choose|k: int| #[trigger] differ_at(b, a, k);
        assert(false);
    }
}

/// Whether `a` comes before `b` in dictionary order.
pub fn comes_before(a: &str, b: &str) -> (before: bool)
    ensures
        before == text_before(a@, b@),
        !before && a@ != b@ ==> text_before(b@, a@),
{
    let x: Vec<char> = to_chars(a);
    let y: Vec<char> = to_chars(b);
    let mut k: usize = 0;
    while k < x.len() && k < y.len() && x[k] == y[k]
        invariant
            x@ == a@,
            y@ == b@,
            k <= x@.len(),
            k <= y@.len(),
            forall|i: int| 0 <= i < k ==> x@[i] == y@[i],
        decreases x@.len() - k,
    {
        k = k + 1;
    }
    if k < y.len() && (k == x.len() || x[k] < y[k]) {
        assert(differ_at(a@, b@, k as int));
        true
    } else {
        proof {
            if a@ != b@ {
                if k == y@.len() && k == x@.len() {
                    assert(a@ =~= b@);
                }
                assert(differ_at(b@, a@, k as int));
            }
            if text_before(a@, b@) {
                let j = choose|j: int| #[trigger] differ_at(a@, b@, j);
                assert(false);
            }
        }
        false
    }
}

/// Dictionary order is total.
pub proof fn lemma_before_total(a: Seq<char>, b: Seq<char>)
    ensures
        a == b || text_before(a, b) || text_before(b, a),
    decreases a.len(),
{
    if a.len() == 0 {
        if b.len() > 0 {
            assert(differ_at(a, b, 0));
        } else {
            assert(a =~= b);
        }
    } else if b.len() == 0 {
        assert(differ_at(b, a, 0));
    } else if a[0] < b[0] {
        assert(differ_at(a, b, 0));
    } else if b[0] < a[0] {
        assert(differ_at(b, a, 0));
    } else {
        let x = a.drop_first();
        let y = b.drop_first();
        lemma_before_total(x, y);
        if text_before(x, y) {
            let k = choose|k: int| #[trigger] differ_at(x, y, k);
            assert(forall|i: int| 1 <= i < a.len() ==> a[i] == x[i - 1]);
            assert(forall|i: int| 1 <= i < b.len() ==> b[i] == y[i - 1]);
            assert(differ_at(a, b, k + 1));
        } else if text_before(y, x) {
            let k = choose|k: int| #[trigger] differ_at(y, x, k);
            assert(forall|i: int| 1 <= i < a.len() ==> a[i] == x[i - 1]);
            assert(forall|i: int| 1 <= i < b.len() ==> b[i] == y[i - 1]);
            assert(differ_at(b, a, k + 1));
        } else {
            assert(a =~= seq![a[0]] + x);
            assert(b =~= seq![b[0]] + y);
        }
    }
}

// ---------------------------------------------------------------------------
// Path order
// ---------------------------------------------------------------------------

/// A component of a path. The root comes before `.`, that before `..`, and
/// that before names, which are in dictionary order.
pub struct ComponentView {
    /// 0 for the root, 1 for `.`, 2 for `..`, 3 for a name.
    pub rank: int,
    /// The name; empty for the others.
    pub name: Seq<char>,
}

/// The components of the segments of `path` from position `from` on. Empty
/// segments do not count, nor does `.` other than in front.
pub open spec fn components_from(path: Seq<char>, from: int) -> Seq<ComponentView>
    decreases path.len() - from,
{
    if from < 0 || from >= path.len() {
        seq![]
    } else {
        proof {
            lemma_find_from(path, seq!['/'], from);
        }
        match find_from(path, seq!['/'], from) {
            Some(end) => segment_components(path.subrange(from, end), from == 0)
                + components_from(path, end + 1),
            None => segment_components(path.subrange(from, path.len() as int), from == 0),
        }
    }
}

/// The component of one segment, if it counts.
pub open spec fn segment_components(segment: Seq<char>, in_front: bool) -> Seq<ComponentView> {
    if segment.len() == 0 {
        seq![]
    } else if segment == "."@ {
        if in_front {
            seq![ComponentView { rank: 1, name: Seq::empty() }]
        } else {
            seq![]
        }
    } else if segment == ".."@ {
        seq![ComponentView { rank: 2, name: Seq::empty() }]
    } else {
        seq![ComponentView { rank: 3, name: segment }]
    }
}

/// The components of a path.
pub open spec fn components(path: Seq<char>) -> Seq<ComponentView> {
    if path.len() > 0 && path[0] == '/' {
        seq![ComponentView { rank: 0, name: Seq::empty() }] + components_from(path, 0)
    } else {
        components_from(path, 0)
    }
}

/// `a` comes before `b`.
pub open spec fn component_before(a: ComponentView, b: ComponentView) -> bool {
    a.rank < b.rank || a.rank == b.rank && text_before(a.name, b.name)
}

/// `a` comes before `b`: where they first differ it has the earlier
/// component, or it ends there.
pub open spec fn components_before(a: Seq<ComponentView>, b: Seq<ComponentView>) -> bool
    decreases a.len(),
{
    if b.len() == 0 {
        false
    } else if a.len() == 0 {
        true
    } else if a[0] == b[0] {
        components_before(a.drop_first(), b.drop_first())
    } else {
        component_before(a[0], b[0])
    }
}

/// `a` is listed before `b`: their components decide, one after another.
pub open spec fn path_before(a: Seq<char>, b: Seq<char>) -> bool {
    components_before(components(a), components(b))
}

/// `list`, which is in order, with `path` put behind all paths that it does
/// not come before.
pub open spec fn insert_path(list: Seq<Seq<char>>, path: Seq<char>) -> Seq<Seq<char>>
    decreases list.len(),
{
    if list.len() > 0 && path_before(path, list.last()) {
        insert_path(list.drop_last(), path).push(list.last())
    } else {
        list.push(path)
    }
}

/// The paths in order; those that take the same place keep theirs.
pub open spec fn sort_paths(list: Seq<Seq<char>>) -> Seq<Seq<char>>
    decreases list.len(),
{
    if list.len() == 0 {
        seq![]
    } else {
        insert_path(sort_paths(list.drop_last()), list.last())
    }
}

/// The paths with a given extension.
pub open spec fn with_extension(list: Seq<Seq<char>>, wanted: Seq<char>) -> Seq<Seq<char>>
    decreases list.len(),
{
    if list.len() == 0 {
        seq![]
    } else {
        let before = with_extension(list.drop_last(), wanted);
        if extension(list.last()) == Some(wanted) {
            before.push(list.last())
        } else {
            before
        }
    }
}

/// Components are compared strictly and totally.
proof fn lemma_component_order(a: ComponentView, b: ComponentView)
    ensures
        component_before(a, b) ==> !component_before(b, a) && a != b,
        a == b || component_before(a, b) || component_before(b, a),
{
    lemma_before_total(a.name, b.name);
    if component_before(a, b) && a.rank == b.rank {
        law_dictionary_order_is_strict(a.name, b.name);
    }
}

/// Component lists are compared strictly and totally.
pub proof fn lemma_components_order(a: Seq<ComponentView>, b: Seq<ComponentView>)
    ensures
        components_before(a, b) ==> !components_before(b, a) && a != b,
        a == b || components_before(a, b) || components_before(b, a),
    decreases a.len(),
{
    if a.len() > 0 && b.len() > 0 {
        if a[0] == b[0] {
            lemma_components_order(a.drop_first(), b.drop_first());
            assert(a =~= seq![a[0]] + a.drop_first());
            assert(b =~= seq![b[0]] + b.drop_first());
        } else {
            lemma_component_order(a[0], b[0]);
        }
    } else if a.len() == 0 && b.len() == 0 {
        assert(a =~= b);
    }
}

/// Component lists are compared transitively.
proof fn lemma_components_transitive(
    a: Seq<ComponentView>,
    b: Seq<ComponentView>,
    c: Seq<ComponentView>,
)
    requires
        components_before(a, b),
        components_before(b, c),
    ensures
        components_before(a, c),
    decreases a.len(),
{
    if a.len() > 0 {
        if a[0] == b[0] && b[0] == c[0] {
            lemma_components_transitive(a.drop_first(), b.drop_first(), c.drop_first());
        } else if a[0] != b[0] && b[0] != c[0] {
            if a[0].rank == b[0].rank && b[0].rank == c[0].rank {
                lemma_before_transitive(a[0].name, b[0].name, c[0].name);
            }
            if a[0] == c[0] {
                lemma_component_order(a[0], b[0]);
            }
        }
    }
}

/// No path of the list is listed before one in front of it.
pub open spec fn is_in_path_order(list: Seq<Seq<char>>) -> bool {
    forall|i: int, j: int|
        0 <= i < j < list.len() ==> !path_before(#[trigger] list[j], #[trigger] list[i])
}

proof fn lemma_insert_path(list: Seq<Seq<char>>, path: Seq<char>)
    requires
        is_in_path_order(list),
    ensures
        is_in_path_order(insert_path(list, path)),
        insert_path(list, path).to_multiset() =~= list.to_multiset().insert(path),
        forall|i: int|
            0 <= i < insert_path(list, path).len() ==> #[trigger] insert_path(list, path)[i] == path
                || list.contains(insert_path(list, path)[i]),
    decreases list.len(),
{
    broadcast use vstd::seq_lib::group_to_multiset_ensures;

    let result = insert_path(list, path);
    if list.len() > 0 {
        let last = list.last();
        assert(list =~= list.drop_last().push(last));
        lemma_components_order(components(path), components(last));
        if path_before(path, last) {
            let front = insert_path(list.drop_last(), path);
            lemma_insert_path(list.drop_last(), path);
            assert forall|i: int| 0 <= i < result.len() implies #[trigger] result[i] == path
                || list.contains(result[i]) by {
                if i < front.len() {
                    assert(result[i] == front[i]);
                    if front[i] != path {
                        let k = choose|k: int|
                            0 <= k < list.drop_last().len() && list.drop_last()[k] == front[i];
                        assert(list[k] == front[i]);
                    }
                } else {
                    assert(list[list.len() - 1] == result[i]);
                }
            }
            assert forall|i: int, j: int| 0 <= i < j < result.len() implies !path_before(
                #[trigger] result[j],
                #[trigger] result[i],
            ) by {
                if j < front.len() {
                    assert(result[j] == front[j] && result[i] == front[i]);
                } else {
                    assert(result[i] == front[i] && result[j] == last);
                    if front[i] != path {
                        let k = choose|k: int|
                            0 <= k < list.drop_last().len() && list.drop_last()[k] == front[i];
                        assert(list[k] == front[i]);
                        assert(!path_before(list[list.len() - 1], list[k]));
                    }
                }
            }
        } else {
            assert forall|i: int, j: int| 0 <= i < j < result.len() implies !path_before(
                #[trigger] result[j],
                #[trigger] result[i],
            ) by {
                if j == list.len() && i < list.len() - 1 {
                    assert(!path_before(list[list.len() - 1], list[i]));
                    lemma_components_order(components(list[i]), components(last));
                    if path_before(path, list[i]) && path_before(list[i], last) {
                        lemma_components_transitive(
                            components(path),
                            components(list[i]),
                            components(last),
                        );
                    }
                }
            }
            assert forall|i: int| 0 <= i < result.len() implies #[trigger] result[i] == path
                || list.contains(result[i]) by {
                if i < list.len() {
                    assert(list[i] == result[i]);
                }
            }
        }
    }
}

/// Sorting keeps the paths, each as often as it was there, and puts none
/// behind one that it is listed before.
pub proof fn law_sorting_orders_and_keeps_paths(list: Seq<Seq<char>>)
    ensures
        is_in_path_order(sort_paths(list)),
        sort_paths(list).to_multiset() == list.to_multiset(),
    decreases list.len(),
{
    broadcast use vstd::seq_lib::group_to_multiset_ensures;

    if list.len() > 0 {
        let front = list.drop_last();
        law_sorting_orders_and_keeps_paths(front);
        lemma_insert_path(sort_paths(front), list.last());
        assert(list =~= front.push(list.last()));
        assert(sort_paths(list).to_multiset() =~= list.to_multiset());
    } else {
        assert(sort_paths(list) =~= list);
    }
}

/// `a` is listed before `b`, or both take one place and `a` comes before `b`
/// in dictionary order, or is `b`.
spec fn refined_order(a: Seq<char>, b: Seq<char>) -> bool {
    ||| path_before(a, b)
    ||| components(a) == components(b) && (a == b || text_before(a, b))
}

proof fn lemma_refined_order_total()
    ensures
        vstd::relations::total_ordering(|a: Seq<char>, b: Seq<char>| refined_order(a, b)),
{
    let leq = |a: Seq<char>, b: Seq<char>| refined_order(a, b);
    assert forall|a: Seq<char>, b: Seq<char>| #[trigger] leq(a, b) && #[trigger] leq(b, a) implies a
        == b by {
        lemma_components_order(components(a), components(b));
        if text_before(a, b) {
            law_dictionary_order_is_strict(a, b);
        }
    }
    assert forall|a: Seq<char>, b: Seq<char>| #[trigger] leq(a, b) || #[trigger] leq(b, a) by {
        lemma_components_order(components(a), components(b));
        lemma_before_total(a, b);
    }
    assert forall|a: Seq<char>, b: Seq<char>, c: Seq<char>| #[trigger]
        leq(a, b) && #[trigger] leq(b, c) implies leq(a, c) by {
        if path_before(a, b) && path_before(b, c) {
            lemma_components_transitive(components(a), components(b), components(c));
        } else if !path_before(a, b) && !path_before(b, c) {
            if text_before(a, b) && text_before(b, c) {
                lemma_before_transitive(a, b, c);
            }
        }
    }
}

proof fn lemma_sorted_by_refined_order(list: Seq<Seq<char>>)
    requires
        is_in_path_order(list),
        forall|a: Seq<char>, b: Seq<char>|
            list.contains(a) && list.contains(b) && #[trigger] components(a) == #[trigger] components(
                b,
            ) ==> a == b,
    ensures
        vstd::relations::sorted_by(list, |a: Seq<char>, b: Seq<char>| refined_order(a, b)),
{
    assert forall|i: int, j: int| 0 <= i < j < list.len() implies #[trigger] refined_order(
        list[i],
        list[j],
    ) by {
        assert(!path_before(list[j], list[i]));
        assert(list.contains(list[i]) && list.contains(list[j]));
        lemma_components_order(components(list[i]), components(list[j]));
    }
}

/// However the paths were found, they are listed in the same order, as long
/// as no two of them are two spellings of one path.
pub proof fn law_sorting_is_deterministic(first: Seq<Seq<char>>, second: Seq<Seq<char>>)
    requires
        first.to_multiset() == second.to_multiset(),
        forall|a: Seq<char>, b: Seq<char>|
            first.contains(a) && first.contains(b) && #[trigger] components(a)
                == #[trigger] components(b) ==> a == b,
    ensures
        sort_paths(first) == sort_paths(second),
{
    broadcast use vstd::seq_lib::group_to_multiset_ensures;

    law_sorting_orders_and_keeps_paths(first);
    law_sorting_orders_and_keeps_paths(second);
    let a = sort_paths(first);
    let b = sort_paths(second);
    assert forall|x: Seq<char>| a.contains(x) || b.contains(x) implies first.contains(x) by {
        assert(a.to_multiset().count(x) > 0);
    }
    lemma_sorted_by_refined_order(a);
    lemma_sorted_by_refined_order(b);
    lemma_refined_order_total();
    vstd::seq_lib::lemma_sorted_unique(
        a,
        b,
        |x: Seq<char>, y: Seq<char>| refined_order(x, y),
    );
}

/// No two paths of the list are one path, however they are spelled.
pub open spec fn are_distinct_paths(list: Seq<Seq<char>>) -> bool {
    forall|i: int, j: int|
        0 <= i < j < list.len() ==> components(#[trigger] list[i]) != components(#[trigger] list[j])
}

/// Sorting keeps the paths.
pub proof fn lemma_sorted_holds(list: Seq<Seq<char>>, path: Seq<char>)
    ensures
        sort_paths(list).contains(path) <==> list.contains(path),
{
    broadcast use vstd::seq_lib::group_to_multiset_ensures;

    law_sorting_orders_and_keeps_paths(list);
    assert(sort_paths(list).to_multiset().count(path) == list.to_multiset().count(path));
}

/// Distinct paths are different texts, each there once.
proof fn lemma_distinct_paths(list: Seq<Seq<char>>)
    requires
        are_distinct_paths(list),
    ensures
        list.no_duplicates(),
        forall|a: Seq<char>, b: Seq<char>|
            list.contains(a) && list.contains(b) && #[trigger] components(a) == #[trigger] components(
                b,
            ) ==> a == b,
{
    assert forall|i: int, j: int| 0 <= i < j < list.len() implies list[i] != list[j] by {
        assert(components(list[i]) != components(list[j]));
    }
    assert forall|a: Seq<char>, b: Seq<char>|
        list.contains(a) && list.contains(b) && #[trigger] components(a) == #[trigger] components(
            b,
        ) implies a == b by {
        let i = choose|i: int| 0 <= i < list.len() && list[i] == a;
        let j = choose|j: int| 0 <= j < list.len() && list[j] == b;
        if i < j {
            assert(components(list[i]) != components(list[j]));
        } else if j < i {
            assert(components(list[j]) != components(list[i]));
        }
    }
}

/// Distinct paths are sorted strictly: each is listed before the next. The
/// list holds the same paths as before.
pub proof fn law_distinct_paths_are_listed_strictly(list: Seq<Seq<char>>)
    requires
        are_distinct_paths(list),
    ensures
        forall|i: int, j: int|
            0 <= i < j < sort_paths(list).len() ==> path_before(
                #[trigger] sort_paths(list)[i],
                #[trigger] sort_paths(list)[j],
            ),
        forall|path: Seq<char>| #[trigger]
            sort_paths(list).contains(path) <==> list.contains(path),
{
    let sorted = sort_paths(list);
    law_sorting_orders_and_keeps_paths(list);
    lemma_distinct_paths(list);
    list.lemma_multiset_has_no_duplicates();
    sorted.lemma_multiset_has_no_duplicates_conv();
    assert forall|path: Seq<char>| #[trigger] sorted.contains(path) <==> list.contains(path) by {
        lemma_sorted_holds(list, path);
    }
    assert forall|i: int, j: int| 0 <= i < j < sorted.len() implies path_before(
        #[trigger] sorted[i],
        #[trigger] sorted[j],
    ) by {
        assert(sorted.contains(sorted[i]) && sorted.contains(sorted[j]));
        assert(!path_before(sorted[j], sorted[i]));
        lemma_components_order(components(sorted[i]), components(sorted[j]));
    }
}

/// Two lists of the same distinct paths are sorted into the same list.
pub proof fn law_same_paths_are_listed_alike(first: Seq<Seq<char>>, second: Seq<Seq<char>>)
    requires
        are_distinct_paths(first),
        are_distinct_paths(second),
        forall|path: Seq<char>| #[trigger] first.contains(path) <==> second.contains(path),
    ensures
        sort_paths(first) == sort_paths(second),
{
    broadcast use vstd::seq_lib::group_to_multiset_ensures;

    lemma_distinct_paths(first);
    lemma_distinct_paths(second);
    first.lemma_multiset_has_no_duplicates();
    second.lemma_multiset_has_no_duplicates();
    let a = first.to_multiset();
    let b = second.to_multiset();
    assert forall|path: Seq<char>| #[trigger] a.count(path) == b.count(path) by {
        assert(first.contains(path) <==> second.contains(path));
    }
    assert(a =~= b);
    law_sorting_is_deterministic(first, second);
}

/// A component of a path, as [`ComponentView`] describes it.
pub struct Component {
    /// 0 for the root, 1 for `.`, 2 for `..`, 3 for a name.
    pub rank: u8,
    /// The name; empty for the others.
    pub name: String,
}

impl View for Component {
    type V = ComponentView;

    open spec fn view(&self) -> ComponentView {
        ComponentView { rank: self.rank as int, name: self.name@ }
    }
}

/// The components as models.
pub open spec fn component_views(list: Seq<Component>) -> Seq<ComponentView> {
    list.map_values(|c: Component| c@)
}

/// The component of one segment, if it counts.
fn component_of(segment: String, in_front: bool) -> (found: Option<Component>)
    ensures
        segment_components(segment@, in_front) == (match found {
            Some(component) => seq![component@],
            None => seq![],
        }),
{
    if segment.as_str().is_empty() {
        assert(segment@.len() == 0);
        None
    } else if same_text(&segment, ".") {
        if in_front {
            let name: String = String::new();
            assert(name@ =~= Seq::empty());
            Some(Component { rank: 1, name })
        } else {
            None
        }
    } else if same_text(&segment, "..") {
        let name: String = String::new();
        assert(name@ =~= Seq::empty());
        Some(Component { rank: 2, name })
    } else {
        Some(Component { rank: 3, name: segment })
    }
}

/// The components of a path.
pub fn path_components(path: &str) -> (list: Vec<Component>)
    ensures
        component_views(list@) == components(path@),
{
    let chars: Vec<char> = to_chars(path);
    let slash: Vec<char> = vec!['/'];
    assert(slash@ =~= seq!['/']);
    let mut list: Vec<Component> = Vec::new();
    if chars.len() > 0 && chars[0] == '/' {
        let name: String = String::new();
        assert(name@ =~= Seq::empty());
        list.push(Component { rank: 0, name });
        assert(component_views(list@) =~= seq![ComponentView { rank: 0, name: Seq::empty() }]);
    } else {
        assert(component_views(list@) =~= Seq::empty());
    }
    let mut from: usize = 0;
    assert(component_views(list@) + components_from(path@, 0) =~= components(path@));
    while from < chars.len()
        invariant
            chars@ == path@,
            slash@ == seq!['/'],
            component_views(list@) + components_from(path@, from as int) == components(path@),
        decreases chars@.len() - from,
    {
        proof {
            lemma_find_from(path@, seq!['/'], from as int);
        }
        let end: usize = match find_text(&chars, &slash, from) {
            Some(i) => i,
            None => chars.len(),
        };
        let ghost before = component_views(list@);
        let ghost found = segment_components(path@.subrange(from as int, end as int), from == 0);
        match component_of(text_of(&chars, from, end), from == 0) {
            Some(component) => {
                list.push(component);
                assert(component_views(list@) =~= before + found);
            },
            None => {
                assert(before + found =~= before);
            },
        }
        if end == chars.len() {
            assert(components_from(path@, end as int) =~= Seq::empty());
            assert(before + found =~= (before + found) + Seq::empty());
            from = end;
        } else {
            assert(before + (found + components_from(path@, end + 1)) =~= (before + found)
                + components_from(path@, end + 1));
            from = end + 1;
        }
    }
    assert(component_views(list@) + components_from(path@, from as int) =~= component_views(list@));
    list
}

/// Whether `a` is listed before `b`.
pub fn path_comes_before(a: &str, b: &str) -> (before: bool)
    ensures
        before == path_before(a@, b@),
{
    let x: Vec<Component> = path_components(a);
    let y: Vec<Component> = path_components(b);
    let mut i: usize = 0;
    let ghost all_x = component_views(x@);
    let ghost all_y = component_views(y@);
    assert(all_x.skip(0) =~= all_x);
    assert(all_y.skip(0) =~= all_y);
    while i < x.len() && i < y.len()
        invariant
            i <= x@.len(),
            i <= y@.len(),
            all_x == component_views(x@),
            all_y == component_views(y@),
            components_before(all_x, all_y) == components_before(
                all_x.skip(i as int),
                all_y.skip(i as int),
            ),
            components_before(all_x, all_y) == path_before(a@, b@),
        decreases x@.len() - i,
    {
        assert(all_x.skip(i as int)[0] == x@[i as int]@);
        assert(all_y.skip(i as int)[0] == y@[i as int]@);
        if x[i].rank != y[i].rank {
            return x[i].rank < y[i].rank;
        }
        if !same_text(&x[i].name, &y[i].name) {
            return comes_before(&x[i].name, &y[i].name);
        }
        assert(all_x.skip(i as int).drop_first() =~= all_x.skip(i + 1));
        assert(all_y.skip(i as int).drop_first() =~= all_y.skip(i + 1));
        i = i + 1;
    }
    i < y.len()
}

/// Puts `path` into `list`, which is in order, behind all paths that it does
/// not come before.
fn insert_in_order(list: &mut Vec<String>, path: String)
    ensures
        views(final(list)@) == insert_path(views(old(list)@), path@),
{
    let ghost before = views(list@);
    let mut at: usize = list.len();
    assert(before.take(at as int) =~= before);
    assert(before.skip(at as int) =~= Seq::empty());
    assert(insert_path(before.take(at as int), path@) + before.skip(at as int) =~= insert_path(
        before,
        path@,
    ));
    while at > 0 && path_comes_before(&path, &list[at - 1])
        invariant
            at <= list@.len(),
            before == views(list@),
            insert_path(before.take(at as int), path@) + before.skip(at as int) == insert_path(
                before,
                path@,
            ),
        decreases at,
    {
        proof {
            let part = before.take(at as int);
            assert(part.last() == list@[at - 1]@);
            assert(part.drop_last() =~= before.take(at - 1));
            assert(insert_path(part.drop_last(), path@).push(part.last()) + before.skip(at as int)
                =~= insert_path(part.drop_last(), path@) + before.skip(at - 1));
        }
        at = at - 1;
    }
    proof {
        let part = before.take(at as int);
        if at > 0 {
            assert(part.last() == list@[at - 1]@);
        }
        assert(insert_path(part, path@) =~= part.push(path@));
        assert(before.insert(at as int, path@) =~= part.push(path@) + before.skip(at as int));
    }
    let ghost added = path@;
    list.insert(at, path);
    assert(views(list@) =~= before.insert(at as int, added));
}

/// The paths with a given extension, in the order of the list.
pub fn paths_with_extension(list: &Vec<String>, wanted: &str) -> (kept: Vec<String>)
    ensures
        views(kept@) == with_extension(views(list@), wanted@),
{
    let mut kept: Vec<String> = Vec::new();
    let ghost all = views(list@);
    assert(views(kept@) =~= Seq::empty());
    let mut i: usize = 0;
    while i < list.len()
        invariant
            i <= list@.len(),
            all == views(list@),
            views(kept@) == with_extension(all.take(i as int), wanted@),
        decreases list@.len() - i,
    {
        let ghost before = views(kept@);
        proof {
            assert(all.take(i + 1).drop_last() =~= all.take(i as int));
            assert(all.take(i + 1).last() == list@[i as int]@);
        }
        if has_extension(&list[i], wanted) {
            kept.push(list[i].clone());
            assert(views(kept@) =~= before.push(list@[i as int]@));
        }
        i = i + 1;
    }
    assert(all.take(all.len() as int) =~= all);
    kept
}

/// The paths in order.
pub fn sorted_paths(list: &Vec<String>) -> (sorted: Vec<String>)
    ensures
        views(sorted@) == sort_paths(views(list@)),
{
    let mut sorted: Vec<String> = Vec::new();
    let ghost all = views(list@);
    assert(views(sorted@) =~= Seq::empty());
    let mut i: usize = 0;
    while i < list.len()
        invariant
            i <= list@.len(),
            all == views(list@),
            views(sorted@) == sort_paths(all.take(i as int)),
        decreases list@.len() - i,
    {
        proof {
            assert(all.take(i + 1).drop_last() =~= all.take(i as int));
            assert(all.take(i + 1).last() == list@[i as int]@);
        }
        insert_in_order(&mut sorted, list[i].clone());
        i = i + 1;
    }
    assert(all.take(all.len() as int) =~= all);
    sorted
}

/// The paths with a given extension, in order.
pub fn sorted_with_extension(list: &Vec<String>, wanted: &str) -> (sorted: Vec<String>)
    ensures
        views(sorted@) == sort_paths(with_extension(views(list@), wanted@)),
{
    sorted_paths(&paths_with_extension(list, wanted))
}

} // verus!
