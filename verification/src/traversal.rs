//! Which documents can be reached by following links.
//!
//! The traversal is breadth-first and touches no disk itself. It is driven by
//! [`Traversal::advance`], which is told what happened and answers what to do
//! next: look up a path, read a file, or stop.

use crate::links::{followed_links, link_targets, linked_paths};
use crate::paths::{extension, extension_of, parent_dir, parent_of};
use crate::text::{list_contains, opt_view, to_chars, views};
use std::collections::VecDeque;
use vstd::prelude::*;
use vstd::std_specs::vecdeque::*;

verus! {

// ---------------------------------------------------------------------------
// Models
// ---------------------------------------------------------------------------

/// A traversal under way.
pub struct TraversalView {
    /// The paths still to be looked at.
    pub queue: Seq<Seq<char>>,
    /// The files reached so far, in the order in which they were reached.
    pub files: Seq<Seq<char>>,
    /// The markdown files among them.
    pub visited: Seq<Seq<char>>,
}

/// A markdown file, by its extension. Case does not matter.
pub open spec fn is_markdown(file: Seq<char>) -> bool {
    match extension(file) {
        Some(ext) => {
            &&& ext.len() == 2
            &&& ext[0] == 'm' || ext[0] == 'M'
            &&& ext[1] == 'd' || ext[1] == 'D'
        },
        None => false,
    }
}

/// A traversal from `entry_points`, before its first step.
pub open spec fn started(entry_points: Seq<Seq<char>>) -> TraversalView {
    TraversalView { queue: entry_points, files: Seq::empty(), visited: Seq::empty() }
}

/// The traversal once the first path was taken from its queue.
pub open spec fn popped(state: TraversalView) -> TraversalView {
    TraversalView { queue: state.queue.drop_first(), ..state }
}

/// The traversal once a path has led to `file`.
pub open spec fn arrived(state: TraversalView, file: Seq<char>) -> TraversalView {
    if state.files.contains(file) {
        state
    } else {
        TraversalView {
            queue: state.queue,
            files: state.files.push(file),
            visited: if is_markdown(file) {
                state.visited.push(file)
            } else {
                state.visited
            },
        }
    }
}

/// The links of `file` are to be followed: it is markdown, and was not
/// reached before.
pub open spec fn goes_on(state: TraversalView, file: Seq<char>) -> bool {
    !state.files.contains(file) && is_markdown(file)
}

/// The traversal once the links in `content`, the text of `file`, are queued.
pub open spec fn extended(
    state: TraversalView,
    file: Seq<char>,
    content: Seq<char>,
) -> TraversalView {
    TraversalView {
        queue: state.queue + followed_links(parent_dir(file), link_targets(content)),
        ..state
    }
}

/// What the driver of a traversal reports, as a model.
pub enum EventView {
    /// The driver is ready.
    Begin,
    /// The path was looked up and led to this file, or to none.
    Found(Option<Seq<char>>),
    /// The file was read and holds this text, or could not be read.
    Read(Seq<char>, Option<Seq<char>>),
}

/// What the driver of a traversal is to do next, as a model.
pub enum ActionView {
    /// Look up which file a path leads to.
    LookUp(Seq<char>),
    /// Read a file.
    Read(Seq<char>),
    /// Stop: everything was looked at.
    Done,
}

/// The traversal and what to do when the first path of its queue is next.
pub open spec fn next_up(state: TraversalView) -> (TraversalView, ActionView) {
    if state.queue.len() == 0 {
        (state, ActionView::Done)
    } else {
        (popped(state), ActionView::LookUp(state.queue[0]))
    }
}

/// The traversal after `event`, and what to do then.
pub open spec fn advanced(state: TraversalView, event: EventView) -> (TraversalView, ActionView) {
    match event {
        EventView::Begin => next_up(state),
        EventView::Found(None) => next_up(state),
        EventView::Found(Some(file)) => if goes_on(state, file) {
            (arrived(state, file), ActionView::Read(file))
        } else {
            next_up(arrived(state, file))
        },
        EventView::Read(_, None) => next_up(state),
        EventView::Read(file, Some(content)) => next_up(extended(state, file, content)),
    }
}

/// What a disk holds: the file that a path leads to, if there is one, by its
/// canonical path, and the text of a file, if it can be read.
pub struct Disk {
    /// The canonical path of the file that a path leads to.
    pub file_at: spec_fn(Seq<char>) -> Option<Seq<char>>,
    /// The text of the file with a canonical path.
    pub text_of: spec_fn(Seq<char>) -> Option<Seq<char>>,
}

/// One step of a traversal over `disk`: the first path of the queue is looked
/// up, and the links of the file that it leads to are queued.
pub open spec fn step(disk: Disk, state: TraversalView) -> TraversalView {
    if state.queue.len() == 0 {
        state
    } else {
        let rest = popped(state);
        match (disk.file_at)(state.queue[0]) {
            None => rest,
            Some(file) => {
                let next = arrived(rest, file);
                if !goes_on(rest, file) {
                    next
                } else {
                    match (disk.text_of)(file) {
                        None => next,
                        Some(content) => extended(next, file, content),
                    }
                }
            },
        }
    }
}

/// A traversal over `disk` after `n` more steps.
pub open spec fn run(disk: Disk, state: TraversalView, n: nat) -> TraversalView
    decreases n,
{
    if n == 0 {
        state
    } else {
        run(disk, step(disk, state), (n - 1) as nat)
    }
}

/// The paths that the links of `file` lead to.
pub open spec fn leads_to(disk: Disk, file: Seq<char>) -> Seq<Seq<char>> {
    match (disk.text_of)(file) {
        Some(content) if is_markdown(file) => followed_links(
            parent_dir(file),
            link_targets(content),
        ),
        _ => Seq::empty(),
    }
}

/// One of `paths` leads to `file`.
pub open spec fn some_path_leads_to(disk: Disk, paths: Seq<Seq<char>>, file: Seq<char>) -> bool {
    exists|path: Seq<char>| #[trigger]
        paths.contains(path) && (disk.file_at)(path) == Some(file)
}

/// `file` is at the end of a chain of `n` links that begins at an entry
/// point.
pub open spec fn reaches(
    disk: Disk,
    entry_points: Seq<Seq<char>>,
    file: Seq<char>,
    n: nat,
) -> bool
    decreases n,
{
    if n == 0 {
        some_path_leads_to(disk, entry_points, file)
    } else {
        exists|middle: Seq<char>|
            #![trigger leads_to(disk, middle)]
            reaches(disk, entry_points, middle, (n - 1) as nat) && some_path_leads_to(
                disk,
                leads_to(disk, middle),
                file,
            )
    }
}

/// `file` can be reached from the entry points by following links.
pub open spec fn is_reachable(disk: Disk, entry_points: Seq<Seq<char>>, file: Seq<char>) -> bool {
    exists|n: nat| #[trigger] reaches(disk, entry_points, file, n)
}

// ---------------------------------------------------------------------------
// Laws
// ---------------------------------------------------------------------------

/// Every file that one of `paths` leads to was reached, or is still to be
/// looked at.
spec fn is_covered(disk: Disk, paths: Seq<Seq<char>>, state: TraversalView) -> bool {
    forall|path: Seq<char>| #[trigger]
        paths.contains(path) && (disk.file_at)(path) is Some ==> state.files.contains(
            (disk.file_at)(path)->0,
        ) || state.queue.contains(path)
}

/// What holds at every point of a traversal.
spec fn is_sound(disk: Disk, entry_points: Seq<Seq<char>>, state: TraversalView) -> bool {
    &&& state.files.no_duplicates()
    &&& state.visited.no_duplicates()
    &&& forall|file: Seq<char>| #[trigger]
        state.visited.contains(file) <==> state.files.contains(file) && is_markdown(file)
    &&& forall|file: Seq<char>| #[trigger]
        state.files.contains(file) ==> is_reachable(disk, entry_points, file)
    &&& forall|path: Seq<char>| #[trigger]
        state.queue.contains(path) && (disk.file_at)(path) is Some ==> is_reachable(
            disk,
            entry_points,
            (disk.file_at)(path)->0,
        )
    &&& is_covered(disk, entry_points, state)
    &&& forall|file: Seq<char>| #[trigger]
        state.files.contains(file) ==> is_covered(disk, leads_to(disk, file), state)
}

proof fn lemma_start_is_sound(disk: Disk, entry_points: Seq<Seq<char>>)
    ensures
        is_sound(disk, entry_points, started(entry_points)),
{
    assert forall|path: Seq<char>| #[trigger]
        entry_points.contains(path) && (disk.file_at)(path) is Some implies is_reachable(
        disk,
        entry_points,
        (disk.file_at)(path)->0,
    ) by {
        assert(reaches(disk, entry_points, (disk.file_at)(path)->0, 0));
    }
}

/// A path that a covered list holds stays covered when the first path of the
/// queue is looked up.
proof fn lemma_step_keeps_cover(disk: Disk, paths: Seq<Seq<char>>, state: TraversalView)
    requires
        is_covered(disk, paths, state),
        state.queue.len() > 0,
    ensures
        is_covered(disk, paths, step(disk, state)),
{
    let next = step(disk, state);
    assert forall|path: Seq<char>| #[trigger]
        paths.contains(path) && (disk.file_at)(path) is Some implies next.files.contains(
        (disk.file_at)(path)->0,
    ) || next.queue.contains(path) by {
        let file = (disk.file_at)(path)->0;
        if state.files.contains(file) {
            lemma_step_keeps_files(disk, state, file);
        } else {
            let i = choose|i: int| 0 <= i < state.queue.len() && state.queue[i] == path;
            if i > 0 {
                assert(next.queue[i - 1] == path);
            } else {
                assert(popped(state).files == state.files);
                assert(next.files == state.files.push(file));
                assert(next.files[state.files.len() as int] == file);
            }
        }
    }
}

proof fn lemma_step_keeps_files(disk: Disk, state: TraversalView, file: Seq<char>)
    requires
        state.files.contains(file),
    ensures
        step(disk, state).files.contains(file),
{
    let i = choose|i: int| 0 <= i < state.files.len() && state.files[i] == file;
    assert(step(disk, state).files[i] == file);
}

/// The markdown files among those reached are kept apart.
proof fn lemma_arrived_markdown(state: TraversalView, file: Seq<char>)
    requires
        state.files.no_duplicates(),
        state.visited.no_duplicates(),
        forall|other: Seq<char>| #[trigger]
            state.visited.contains(other) <==> state.files.contains(other) && is_markdown(other),
    ensures
        arrived(state, file).files.no_duplicates(),
        arrived(state, file).visited.no_duplicates(),
        forall|other: Seq<char>| #[trigger]
            arrived(state, file).files.contains(other) <==> state.files.contains(other) || other
                == file,
        forall|other: Seq<char>| #[trigger]
            arrived(state, file).visited.contains(other) <==> arrived(state, file).files.contains(
                other,
            ) && is_markdown(other),
{
    let next = arrived(state, file);
    if !state.files.contains(file) {
        lemma_pushed(state.files, file);
        lemma_pushed(state.visited, file);
        assert(!state.visited.contains(file));
        assert forall|other: Seq<char>| #[trigger] next.visited.contains(other)
            <==> next.files.contains(other) && is_markdown(other) by {
            assert(state.visited.contains(other) <==> state.files.contains(other) && is_markdown(
                other,
            ));
            assert(state.files.push(file).contains(other) <==> state.files.contains(other) || other
                == file);
            assert(state.visited.push(file).contains(other) <==> state.visited.contains(other)
                || other == file);
        }
    }
}

/// What a list holds with one more file at its end.
proof fn lemma_pushed(list: Seq<Seq<char>>, file: Seq<char>)
    ensures
        forall|other: Seq<char>| #[trigger]
            list.push(file).contains(other) <==> list.contains(other) || other == file,
{
    let after = list.push(file);
    assert forall|other: Seq<char>| #[trigger] after.contains(other) <==> list.contains(other)
        || other == file by {
        if list.contains(other) {
            let i = choose|i: int| 0 <= i < list.len() && list[i] == other;
            assert(after[i] == other);
        }
        if other == file {
            assert(after[list.len() as int] == file);
        }
        if after.contains(other) {
            let i = choose|i: int| 0 <= i < after.len() && after[i] == other;
            if i < list.len() {
                assert(list[i] == other);
            }
        }
    }
}

proof fn lemma_step_is_sound(disk: Disk, entry_points: Seq<Seq<char>>, state: TraversalView)
    requires
        is_sound(disk, entry_points, state),
    ensures
        is_sound(disk, entry_points, step(disk, state)),
{
    if state.queue.len() > 0 {
        let next = step(disk, state);
        let path = state.queue[0];
        assert(state.queue.contains(path));
        lemma_step_keeps_cover(disk, entry_points, state);
        if (disk.file_at)(path) is Some {
            lemma_arrived_markdown(popped(state), (disk.file_at)(path)->0);
        }
        assert forall|file: Seq<char>| #[trigger] next.files.contains(file) implies is_reachable(
            disk,
            entry_points,
            file,
        ) && is_covered(disk, leads_to(disk, file), next) by {
            if state.files.contains(file) {
                lemma_step_keeps_cover(disk, leads_to(disk, file), state);
            } else {
                assert(file == (disk.file_at)(path)->0);
                assert forall|linked: Seq<char>| #[trigger]
                    leads_to(disk, file).contains(linked) implies next.queue.contains(linked) by {
                    let k = choose|k: int|
                        0 <= k < leads_to(disk, file).len() && leads_to(disk, file)[k] == linked;
                    assert(next.queue[state.queue.len() - 1 + k] == linked);
                }
            }
        }
        assert forall|other: Seq<char>| #[trigger]
            next.queue.contains(other) && (disk.file_at)(other) is Some implies is_reachable(
            disk,
            entry_points,
            (disk.file_at)(other)->0,
        ) by {
            let k = choose|k: int| 0 <= k < next.queue.len() && next.queue[k] == other;
            if k < state.queue.len() - 1 {
                assert(state.queue[k + 1] == other);
                assert(state.queue.contains(other));
            } else {
                let file = (disk.file_at)(path)->0;
                let n = choose|n: nat| #[trigger] reaches(disk, entry_points, file, n);
                assert(leads_to(disk, file)[k - (state.queue.len() - 1)] == other);
                assert(leads_to(disk, file).contains(other));
                let target = (disk.file_at)(other)->0;
                assert(some_path_leads_to(disk, leads_to(disk, file), target));
                assert(reaches(disk, entry_points, target, n + 1));
            }
        }
    }
}

proof fn lemma_run_is_sound(
    disk: Disk,
    entry_points: Seq<Seq<char>>,
    state: TraversalView,
    n: nat,
)
    requires
        is_sound(disk, entry_points, state),
    ensures
        is_sound(disk, entry_points, run(disk, state, n)),
    decreases n,
{
    if n > 0 {
        lemma_step_is_sound(disk, entry_points, state);
        lemma_run_is_sound(disk, entry_points, step(disk, state), (n - 1) as nat);
    }
}

proof fn lemma_reachable_files_were_reached(
    disk: Disk,
    entry_points: Seq<Seq<char>>,
    state: TraversalView,
    file: Seq<char>,
    n: nat,
)
    requires
        is_sound(disk, entry_points, state),
        state.queue.len() == 0,
        reaches(disk, entry_points, file, n),
    ensures
        state.files.contains(file),
    decreases n,
{
    let paths = if n == 0 {
        entry_points
    } else {
        let middle = choose|middle: Seq<char>|
            #![trigger leads_to(disk, middle)]
            reaches(disk, entry_points, middle, (n - 1) as nat) && some_path_leads_to(
                disk,
                leads_to(disk, middle),
                file,
            );
        lemma_reachable_files_were_reached(disk, entry_points, state, middle, (n - 1) as nat);
        leads_to(disk, middle)
    };
    assert(is_covered(disk, paths, state));
    let path = choose|path: Seq<char>| #[trigger]
        paths.contains(path) && (disk.file_at)(path) == Some(file);
    assert(!state.queue.contains(path));
}

/// What becomes of an action on `disk`: the traversal and what to do once the
/// path was looked up and, if that is asked for, the file was read.
pub open spec fn performed(disk: Disk, state: TraversalView, action: ActionView) -> (
    TraversalView,
    ActionView,
) {
    match action {
        ActionView::LookUp(path) => {
            let (next, then) = advanced(state, EventView::Found((disk.file_at)(path)));
            match then {
                ActionView::Read(file) => advanced(
                    next,
                    EventView::Read(file, (disk.text_of)(file)),
                ),
                _ => (next, then),
            }
        },
        _ => (state, action),
    }
}

/// A driver that performs what it is asked for takes a traversal forward one
/// step after another.
pub proof fn law_driver_takes_steps(disk: Disk, state: TraversalView)
    requires
        state.queue.len() > 0,
    ensures
        performed(disk, next_up(state).0, next_up(state).1) == next_up(step(disk, state)),
{
}

/// At every point of a traversal no file was reached twice, and each was
/// reached by following links: a path that leads to no file on disk never
/// makes anything reachable. The markdown files among them are listed apart.
pub proof fn law_only_reachable_files_are_visited(
    disk: Disk,
    entry_points: Seq<Seq<char>>,
    n: nat,
)
    ensures
        run(disk, started(entry_points), n).files.no_duplicates(),
        run(disk, started(entry_points), n).visited.no_duplicates(),
        forall|file: Seq<char>| #[trigger]
            run(disk, started(entry_points), n).files.contains(file) ==> is_reachable(
                disk,
                entry_points,
                file,
            ),
        forall|file: Seq<char>| #[trigger]
            run(disk, started(entry_points), n).visited.contains(file) <==> run(
                disk,
                started(entry_points),
                n,
            ).files.contains(file) && is_markdown(file),
{
    lemma_start_is_sound(disk, entry_points);
    lemma_run_is_sound(disk, entry_points, started(entry_points), n);
}

/// A traversal that has nothing left to look at has reached exactly the files
/// that links lead to, and has listed the markdown files among them.
pub proof fn law_traversal_reaches_every_linked_file(
    disk: Disk,
    entry_points: Seq<Seq<char>>,
    n: nat,
)
    requires
        run(disk, started(entry_points), n).queue.len() == 0,
    ensures
        forall|file: Seq<char>| #[trigger]
            run(disk, started(entry_points), n).files.contains(file) <==> is_reachable(
                disk,
                entry_points,
                file,
            ),
        forall|file: Seq<char>| #[trigger]
            run(disk, started(entry_points), n).visited.contains(file) <==> is_reachable(
                disk,
                entry_points,
                file,
            ) && is_markdown(file),
{
    let end = run(disk, started(entry_points), n);
    lemma_start_is_sound(disk, entry_points);
    lemma_run_is_sound(disk, entry_points, started(entry_points), n);
    assert forall|file: Seq<char>| is_reachable(disk, entry_points, file) implies #[trigger]
        end.files.contains(file) by {
        let k = choose|k: nat| #[trigger] reaches(disk, entry_points, file, k);
        lemma_reachable_files_were_reached(disk, entry_points, end, file, k);
    }
    assert forall|file: Seq<char>| #[trigger] end.visited.contains(file) <==> is_reachable(
        disk,
        entry_points,
        file,
    ) && is_markdown(file) by {
        assert(end.visited.contains(file) <==> end.files.contains(file) && is_markdown(file));
        assert(end.files.contains(file) <==> is_reachable(disk, entry_points, file));
    }
}

/// Some path leads to every reachable file. Where a canonical path leads to
/// its own file, so does that of a reachable file.
pub proof fn law_reachable_files_exist(
    disk: Disk,
    entry_points: Seq<Seq<char>>,
    file: Seq<char>,
)
    requires
        is_reachable(disk, entry_points, file),
    ensures
        exists|path: Seq<char>| #[trigger] (disk.file_at)(path) == Some(file),
        (forall|path: Seq<char>| #[trigger]
            (disk.file_at)(path) is Some ==> (disk.file_at)((disk.file_at)(path)->0)
                == (disk.file_at)(path)) ==> (disk.file_at)(file) == Some(file),
{
    let n = choose|n: nat| #[trigger] reaches(disk, entry_points, file, n);
    let paths = if n == 0 {
        entry_points
    } else {
        let middle = choose|middle: Seq<char>|
            #![trigger leads_to(disk, middle)]
            reaches(disk, entry_points, middle, (n - 1) as nat) && some_path_leads_to(
                disk,
                leads_to(disk, middle),
                file,
            );
        leads_to(disk, middle)
    };
    assert(some_path_leads_to(disk, paths, file));
    let path = choose|path: Seq<char>| #[trigger]
        paths.contains(path) && (disk.file_at)(path) == Some(file);
    assert((disk.file_at)(path) == Some(file));
}

/// A chain of links from one of two lists begins in one of them.
proof fn lemma_reaches_from_either(
    disk: Disk,
    a: Seq<Seq<char>>,
    b: Seq<Seq<char>>,
    file: Seq<char>,
    n: nat,
)
    ensures
        reaches(disk, a + b, file, n) <==> reaches(disk, a, file, n) || reaches(disk, b, file, n),
    decreases n,
{
    if n == 0 {
        if some_path_leads_to(disk, a + b, file) {
            let path = choose|path: Seq<char>| #[trigger]
                (a + b).contains(path) && (disk.file_at)(path) == Some(file);
            let i = choose|i: int| 0 <= i < (a + b).len() && (a + b)[i] == path;
            if i < a.len() {
                assert(a[i] == path);
                assert(a.contains(path));
            } else {
                assert(b[i - a.len()] == path);
                assert(b.contains(path));
            }
        }
        if some_path_leads_to(disk, a, file) {
            let path = choose|path: Seq<char>| #[trigger]
                a.contains(path) && (disk.file_at)(path) == Some(file);
            let i = choose|i: int| 0 <= i < a.len() && a[i] == path;
            assert((a + b)[i] == path);
            assert((a + b).contains(path));
        }
        if some_path_leads_to(disk, b, file) {
            let path = choose|path: Seq<char>| #[trigger]
                b.contains(path) && (disk.file_at)(path) == Some(file);
            let i = choose|i: int| 0 <= i < b.len() && b[i] == path;
            assert((a + b)[a.len() + i] == path);
            assert((a + b).contains(path));
        }
    } else {
        let m = (n - 1) as nat;
        assert forall|middle: Seq<char>|
            #![trigger leads_to(disk, middle)]
            reaches(disk, a + b, middle, m) <==> reaches(disk, a, middle, m) || reaches(
                disk,
                b,
                middle,
                m,
            ) by {
            lemma_reaches_from_either(disk, a, b, middle, m);
        }
        if reaches(disk, a + b, file, n) {
            let middle = choose|middle: Seq<char>|
                #![trigger leads_to(disk, middle)]
                reaches(disk, a + b, middle, m) && some_path_leads_to(
                    disk,
                    leads_to(disk, middle),
                    file,
                );
            assert(reaches(disk, a, middle, m) || reaches(disk, b, middle, m));
        }
    }
}

/// What can be reached from two lists of entry points together is what can be
/// reached from either. So neither their order nor repeats matter, and an
/// entry point that leads to no file adds nothing.
pub proof fn law_reachable_from_either(
    disk: Disk,
    a: Seq<Seq<char>>,
    b: Seq<Seq<char>>,
    file: Seq<char>,
)
    ensures
        is_reachable(disk, a + b, file) <==> is_reachable(disk, a, file) || is_reachable(
            disk,
            b,
            file,
        ),
{
    if is_reachable(disk, a + b, file) {
        let n = choose|n: nat| #[trigger] reaches(disk, a + b, file, n);
        lemma_reaches_from_either(disk, a, b, file, n);
    }
    if is_reachable(disk, a, file) {
        let n = choose|n: nat| #[trigger] reaches(disk, a, file, n);
        lemma_reaches_from_either(disk, a, b, file, n);
        assert(reaches(disk, a + b, file, n));
    }
    if is_reachable(disk, b, file) {
        let n = choose|n: nat| #[trigger] reaches(disk, b, file, n);
        lemma_reaches_from_either(disk, a, b, file, n);
        assert(reaches(disk, a + b, file, n));
    }
}

/// Traversals that have come to their end: the one from two lists of entry
/// points has reached the files that one of the two from either list has.
pub proof fn law_traversals_add_up(
    disk: Disk,
    a: Seq<Seq<char>>,
    b: Seq<Seq<char>>,
    both: nat,
    first: nat,
    second: nat,
)
    requires
        run(disk, started(a + b), both).queue.len() == 0,
        run(disk, started(a), first).queue.len() == 0,
        run(disk, started(b), second).queue.len() == 0,
    ensures
        run(disk, started(a + b), both).files.to_set() == run(
            disk,
            started(a),
            first,
        ).files.to_set().union(run(disk, started(b), second).files.to_set()),
        run(disk, started(a + b), both).visited.to_set() == run(
            disk,
            started(a),
            first,
        ).visited.to_set().union(run(disk, started(b), second).visited.to_set()),
{
    let all = run(disk, started(a + b), both);
    let one = run(disk, started(a), first);
    let two = run(disk, started(b), second);
    law_traversal_reaches_every_linked_file(disk, a + b, both);
    law_traversal_reaches_every_linked_file(disk, a, first);
    law_traversal_reaches_every_linked_file(disk, b, second);
    assert forall|file: Seq<char>|
        (all.files.contains(file) <==> one.files.contains(file) || two.files.contains(file)) && (
        all.visited.contains(file) <==> one.visited.contains(file) || two.visited.contains(
            file,
        )) by {
        law_reachable_from_either(disk, a, b, file);
    }
    assert(all.files.to_set() =~= one.files.to_set().union(two.files.to_set()));
    assert(all.visited.to_set() =~= one.visited.to_set().union(two.visited.to_set()));
}

/// Entry points that hold the same paths, in whatever order and however
/// often, reach the same files.
pub proof fn law_order_of_entry_points_does_not_matter(
    disk: Disk,
    a: Seq<Seq<char>>,
    b: Seq<Seq<char>>,
    file: Seq<char>,
)
    requires
        forall|path: Seq<char>| (disk.file_at)(path) is Some ==> (#[trigger] a.contains(path)
            <==> b.contains(path)),
    ensures
        is_reachable(disk, a, file) <==> is_reachable(disk, b, file),
{
    if is_reachable(disk, a, file) {
        let n = choose|n: nat| #[trigger] reaches(disk, a, file, n);
        lemma_same_entry_points(disk, a, b, file, n);
        assert(reaches(disk, b, file, n));
    }
    if is_reachable(disk, b, file) {
        let n = choose|n: nat| #[trigger] reaches(disk, b, file, n);
        lemma_same_entry_points(disk, a, b, file, n);
        assert(reaches(disk, a, file, n));
    }
}

proof fn lemma_same_entry_points(
    disk: Disk,
    a: Seq<Seq<char>>,
    b: Seq<Seq<char>>,
    file: Seq<char>,
    n: nat,
)
    requires
        forall|path: Seq<char>| (disk.file_at)(path) is Some ==> (#[trigger] a.contains(path)
            <==> b.contains(path)),
    ensures
        reaches(disk, a, file, n) <==> reaches(disk, b, file, n),
    decreases n,
{
    if n == 0 {
        if some_path_leads_to(disk, a, file) {
            let path = choose|path: Seq<char>| #[trigger]
                a.contains(path) && (disk.file_at)(path) == Some(file);
            assert(b.contains(path));
        }
        if some_path_leads_to(disk, b, file) {
            let path = choose|path: Seq<char>| #[trigger]
                b.contains(path) && (disk.file_at)(path) == Some(file);
            assert(a.contains(path));
        }
    } else {
        let m = (n - 1) as nat;
        assert forall|middle: Seq<char>|
            #![trigger leads_to(disk, middle)]
            reaches(disk, a, middle, m) <==> reaches(disk, b, middle, m) by {
            lemma_same_entry_points(disk, a, b, middle, m);
        }
    }
}

/// Files to which nothing leads but links from one another are not reached.
pub proof fn law_files_that_only_link_each_other_are_unreachable(
    disk: Disk,
    entry_points: Seq<Seq<char>>,
    group: Set<Seq<char>>,
    file: Seq<char>,
)
    requires
        forall|path: Seq<char>| #[trigger]
            entry_points.contains(path) && (disk.file_at)(path) is Some ==> !group.contains(
                (disk.file_at)(path)->0,
            ),
        forall|other: Seq<char>, path: Seq<char>| #[trigger]
            leads_to(disk, other).contains(path) && (disk.file_at)(path) is Some && !group.contains(
                other,
            ) ==> !group.contains((disk.file_at)(path)->0),
        group.contains(file),
    ensures
        !is_reachable(disk, entry_points, file),
{
    if is_reachable(disk, entry_points, file) {
        let n = choose|n: nat| #[trigger] reaches(disk, entry_points, file, n);
        lemma_nothing_leads_into(disk, entry_points, group, file, n);
    }
}

proof fn lemma_nothing_leads_into(
    disk: Disk,
    entry_points: Seq<Seq<char>>,
    group: Set<Seq<char>>,
    file: Seq<char>,
    n: nat,
)
    requires
        forall|path: Seq<char>| #[trigger]
            entry_points.contains(path) && (disk.file_at)(path) is Some ==> !group.contains(
                (disk.file_at)(path)->0,
            ),
        forall|other: Seq<char>, path: Seq<char>| #[trigger]
            leads_to(disk, other).contains(path) && (disk.file_at)(path) is Some && !group.contains(
                other,
            ) ==> !group.contains((disk.file_at)(path)->0),
        reaches(disk, entry_points, file, n),
    ensures
        !group.contains(file),
    decreases n,
{
    if n > 0 {
        let middle = choose|middle: Seq<char>|
            #![trigger leads_to(disk, middle)]
            reaches(disk, entry_points, middle, (n - 1) as nat) && some_path_leads_to(
                disk,
                leads_to(disk, middle),
                file,
            );
        lemma_nothing_leads_into(disk, entry_points, group, middle, (n - 1) as nat);
    }
}

/// On a disk with finitely many files every traversal comes to an end, also
/// where links run in a circle.
pub proof fn law_traversal_ends(disk: Disk, files: Set<Seq<char>>, state: TraversalView) -> (n: nat)
    requires
        files.finite(),
        forall|path: Seq<char>| #[trigger]
            (disk.file_at)(path) is Some ==> files.contains((disk.file_at)(path)->0),
    ensures
        run(disk, state, n).queue.len() == 0,
    decreases files.difference(state.files.to_set()).len(), state.queue.len(),
{
    if state.queue.len() == 0 {
        0
    } else {
        let next = step(disk, state);
        let left = files.difference(state.files.to_set());
        vstd::set_lib::lemma_len_difference(files, state.files.to_set());
        if next.files != state.files {
            let file = (disk.file_at)(state.queue[0])->0;
            assert(next.files == state.files.push(file));
            assert(files.difference(next.files.to_set()) =~= left.remove(file)) by {
                assert forall|other: Seq<char>| next.files.to_set().contains(other)
                    <==> state.files.to_set().contains(other) || other == file by {
                    if state.files.contains(other) {
                        lemma_step_keeps_files(disk, state, other);
                    }
                    if other == file {
                        assert(next.files[state.files.len() as int] == file);
                    }
                    if next.files.contains(other) {
                        let i = choose|i: int|
                            0 <= i < next.files.len() && next.files[i] == other;
                        if i < state.files.len() {
                            assert(state.files[i] == other);
                        }
                    }
                }
            }
            assert(left.contains(file));
        }
        let n = law_traversal_ends(disk, files, next);
        n + 1
    }
}

// ---------------------------------------------------------------------------
// Executable functions
// ---------------------------------------------------------------------------

/// Whether a file is markdown, by its extension.
pub fn is_markdown_file(file: &str) -> (markdown: bool)
    ensures
        markdown == is_markdown(file@),
{
    match extension_of(file) {
        Some(ext) => {
            let chars: Vec<char> = to_chars(&ext);
            chars.len() == 2 && (chars[0] == 'm' || chars[0] == 'M') && (chars[1] == 'd'
                || chars[1] == 'D')
        },
        None => false,
    }
}

/// What the driver of a traversal reports.
#[derive(Debug)]
pub enum Event {
    /// The driver is ready.
    Begin,
    /// The path was looked up and led to this file, by its canonical path, or
    /// to none.
    Found(Option<String>),
    /// The file was read and holds this text, or could not be read.
    Read(String, Option<String>),
}

impl View for Event {
    type V = EventView;

    open spec fn view(&self) -> EventView {
        match self {
            Event::Begin => EventView::Begin,
            Event::Found(file) => EventView::Found(opt_view(*file)),
            Event::Read(file, text) => EventView::Read(file@, opt_view(*text)),
        }
    }
}

/// What the driver of a traversal is to do next.
#[derive(Debug, PartialEq, Eq)]
pub enum Action {
    /// Look up which file a path leads to.
    LookUp(String),
    /// Read a file.
    Read(String),
    /// Stop: everything was looked at.
    Done,
}

impl View for Action {
    type V = ActionView;

    open spec fn view(&self) -> ActionView {
        match self {
            Action::LookUp(path) => ActionView::LookUp(path@),
            Action::Read(file) => ActionView::Read(file@),
            Action::Done => ActionView::Done,
        }
    }
}

/// A traversal under way.
pub struct Traversal {
    queue: VecDeque<String>,
    files: Vec<String>,
    visited: Vec<String>,
}

impl View for Traversal {
    type V = TraversalView;

    closed spec fn view(&self) -> TraversalView {
        TraversalView {
            queue: views(self.queue@),
            files: views(self.files@),
            visited: views(self.visited@),
        }
    }
}

impl Traversal {
    /// A traversal from `entry_points`.
    pub fn new(entry_points: &Vec<String>) -> (traversal: Self)
        ensures
            traversal@ == started(views(entry_points@)),
    {
        let mut queue: VecDeque<String> = VecDeque::new();
        let files: Vec<String> = Vec::new();
        let visited: Vec<String> = Vec::new();
        let ghost all = views(entry_points@);
        let mut i: usize = 0;
        assert(views(queue@) =~= all.take(0));
        while i < entry_points.len()
            invariant
                i <= entry_points@.len(),
                all == views(entry_points@),
                views(queue@) == all.take(i as int),
            decreases entry_points@.len() - i,
        {
            let ghost earlier = views(queue@);
            queue.push_back(entry_points[i].clone());
            assert(views(queue@) =~= earlier.push(entry_points@[i as int]@));
            assert(all.take(i + 1) =~= earlier.push(entry_points@[i as int]@));
            i = i + 1;
        }
        assert(all.take(all.len() as int) =~= all);
        assert(views(files@) =~= Seq::empty());
        assert(views(visited@) =~= Seq::empty());
        Traversal { queue, files, visited }
    }

    /// Takes the next path to be looked up from the queue.
    fn next_candidate(&mut self) -> (action: Action)
        ensures
            (final(self)@, action@) == next_up(old(self)@),
    {
        let ghost before = self.queue@;
        match self.queue.pop_front() {
            Some(path) => {
                assert(views(self.queue@) =~= views(before).drop_first());
                assert(path@ == views(before)[0]);
                Action::LookUp(path)
            },
            None => Action::Done,
        }
    }

    /// Takes note that a path led to `file`. The answer is whether the links
    /// of that file are to be followed.
    fn arrive(&mut self, file: &str) -> (follow: bool)
        ensures
            final(self)@ == arrived(old(self)@, file@),
            follow == goes_on(old(self)@, file@),
    {
        if list_contains(&self.files, file) {
            return false;
        }
        let ghost before = self.files@;
        self.files.push(file.to_owned());
        assert(views(self.files@) =~= views(before).push(file@));
        if !is_markdown_file(file) {
            return false;
        }
        let ghost before = self.visited@;
        self.visited.push(file.to_owned());
        assert(views(self.visited@) =~= views(before).push(file@));
        true
    }

    /// Queues the links in `content`, the text of `file`.
    fn follow_links(&mut self, file: &str, content: &str)
        ensures
            final(self)@ == extended(old(self)@, file@, content@),
    {
        let paths: Vec<String> = linked_paths(&parent_of(file), content);
        let ghost before = views(self.queue@);
        let ghost all = views(paths@);
        let ghost files = self.files@;
        let ghost visited = self.visited@;
        let mut i: usize = 0;
        assert(before + all.take(0) =~= before);
        while i < paths.len()
            invariant
                i <= paths@.len(),
                all == views(paths@),
                self.files@ == files,
                self.visited@ == visited,
                views(self.queue@) == before + all.take(i as int),
            decreases paths@.len() - i,
        {
            let ghost earlier = views(self.queue@);
            self.queue.push_back(paths[i].clone());
            assert(views(self.queue@) =~= earlier.push(paths@[i as int]@));
            assert(before + all.take(i + 1) =~= earlier.push(paths@[i as int]@));
            i = i + 1;
        }
        assert(all.take(all.len() as int) =~= all);
    }

    /// Takes note of what happened and answers what to do next.
    pub fn advance(&mut self, event: Event) -> (action: Action)
        ensures
            (final(self)@, action@) == advanced(old(self)@, event@),
    {
        match event {
            Event::Begin => self.next_candidate(),
            Event::Found(None) => self.next_candidate(),
            Event::Found(Some(file)) => {
                if self.arrive(&file) {
                    Action::Read(file)
                } else {
                    self.next_candidate()
                }
            },
            Event::Read(_, None) => self.next_candidate(),
            Event::Read(file, Some(content)) => {
                self.follow_links(&file, &content);
                self.next_candidate()
            },
        }
    }

    /// The files reached, of whatever type, in the order in which they were
    /// reached.
    pub fn files(&self) -> (files: Vec<String>)
        ensures
            views(files@) == self@.files,
    {
        let files: Vec<String> = self.files.clone();
        assert(views(files@) =~= views(self.files@));
        files
    }

    /// The markdown files reached, in the order in which they were reached.
    pub fn reached(&self) -> (files: Vec<String>)
        ensures
            views(files@) == self@.visited,
    {
        let files: Vec<String> = self.visited.clone();
        assert(views(files@) =~= views(self.visited@));
        files
    }
}

} // verus!
