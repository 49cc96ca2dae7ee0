//! Which documents are reached, and which are reported as orphans.

use crate::files::{borrowed_file_views, text_file_views, TextFile};
use crate::findings::CheckConfig;
use crate::laws::order::law_sorted_paths_are_in_order;
use crate::links::{
    followed_links, is_external_or_anchor, law_followed_links_are_local, link_targets,
    resolved_link,
};
use crate::order::{path_before, with_extension};
use crate::orphans::{
    doc_views, entry_points, entry_views, files_among, index_files, markdown_files, orphan_findings,
    orphans, DocFile, DocFileView, Entry, EntryView,
};
use crate::paths::{extension, file_name, joined_path, parent_dir, relative_path};
use crate::text::opt_view;
use crate::traversal::{
    is_markdown, is_reachable, law_files_that_only_link_each_other_are_unreachable, leads_to,
    reaches, some_path_leads_to, started, step, Action, ActionView, Disk, Event, EventView,
    TraversalView,
};
use vstd::prelude::*;

verus! {

// ---------------------------------------------------------------------------
// Reaching
// ---------------------------------------------------------------------------

/// A markdown file has the extension `md`, in letters of either case.
pub proof fn law_markdown_is_known_by_its_extension(file: Seq<char>)
    ensures
        is_markdown(file) <==> {
            ||| extension(file) == Some(seq!['m', 'd'])
            ||| extension(file) == Some(seq!['M', 'd'])
            ||| extension(file) == Some(seq!['m', 'D'])
            ||| extension(file) == Some(seq!['M', 'D'])
        },
{
    if is_markdown(file) {
        let ext = extension(file)->0;
        assert(ext =~= seq![ext[0], ext[1]]);
    }
}

/// The link `target` in the markdown file `from` leads to `file`.
pub open spec fn links_to(disk: Disk, from: Seq<char>, target: Seq<char>, file: Seq<char>) -> bool {
    &&& is_markdown(from)
    &&& (disk.text_of)(from) is Some
    &&& link_targets((disk.text_of)(from)->0).contains(target)
    &&& !is_external_or_anchor(target)
    &&& resolved_link(parent_dir(from), target) is Some
    &&& (disk.file_at)(resolved_link(parent_dir(from), target)->0) == Some(file)
}

/// The file that an entry point leads to is reachable.
pub proof fn law_entry_points_are_reachable(
    disk: Disk,
    points: Seq<Seq<char>>,
    path: Seq<char>,
    file: Seq<char>,
)
    requires
        points.contains(path),
        (disk.file_at)(path) == Some(file),
    ensures
        is_reachable(disk, points, file),
{
    assert(some_path_leads_to(disk, points, file));
    assert(reaches(disk, points, file, 0));
}

/// What a reachable markdown file links to is reachable, by any of its links.
pub proof fn law_linked_files_are_reachable(
    disk: Disk,
    points: Seq<Seq<char>>,
    from: Seq<char>,
    target: Seq<char>,
    file: Seq<char>,
)
    requires
        is_reachable(disk, points, from),
        links_to(disk, from, target, file),
    ensures
        is_reachable(disk, points, file),
{
    let n = choose|n: nat| #[trigger] reaches(disk, points, from, n);
    let path = resolved_link(parent_dir(from), target)->0;
    let targets = link_targets((disk.text_of)(from)->0);
    let i = choose|i: int| 0 <= i < targets.len() && targets[i] == target;
    assert(!is_external_or_anchor(targets[i]));
    law_followed_links_are_local(parent_dir(from), targets, path);
    assert(leads_to(disk, from).contains(path));
    assert(some_path_leads_to(disk, leads_to(disk, from), file));
    assert(reaches(disk, points, file, n + 1));
}

/// Nothing else is reachable: files to which no entry point leads, and no
/// link from outside of them, are not reached.
pub proof fn law_nothing_else_is_reachable(
    disk: Disk,
    points: Seq<Seq<char>>,
    group: Set<Seq<char>>,
    file: Seq<char>,
)
    requires
        forall|path: Seq<char>| #[trigger]
            points.contains(path) && (disk.file_at)(path) is Some ==> !group.contains(
                (disk.file_at)(path)->0,
            ),
        forall|from: Seq<char>, target: Seq<char>, to: Seq<char>| #[trigger]
            links_to(disk, from, target, to) && !group.contains(from) ==> !group.contains(to),
        group.contains(file),
    ensures
        !is_reachable(disk, points, file),
{
    assert forall|other: Seq<char>, path: Seq<char>| #[trigger]
        leads_to(disk, other).contains(path) && (disk.file_at)(path) is Some && !group.contains(
            other,
        ) implies !group.contains((disk.file_at)(path)->0) by {
        let targets = link_targets((disk.text_of)(other)->0);
        law_followed_links_are_local(parent_dir(other), targets, path);
        assert(followed_links(parent_dir(other), targets).contains(path));
        let i = choose|i: int|
            0 <= i < targets.len() && !is_external_or_anchor(#[trigger] targets[i])
                && resolved_link(parent_dir(other), targets[i]) == Some(path);
        assert(targets.contains(targets[i]));
        assert(links_to(disk, other, targets[i], (disk.file_at)(path)->0));
    }
    law_files_that_only_link_each_other_are_unreachable(disk, points, group, file);
}

/// The traversal is breadth-first: what is queued stays in its order, and
/// what a file leads to is put behind it. Files that were reached stay so.
pub proof fn law_traversal_is_breadth_first(disk: Disk, state: TraversalView)
    requires
        state.queue.len() > 0,
    ensures
        step(disk, state).queue.len() >= state.queue.len() - 1,
        step(disk, state).queue.take(state.queue.len() - 1) == state.queue.drop_first(),
        step(disk, state).files.len() >= state.files.len(),
        step(disk, state).files.take(state.files.len() as int) == state.files,
        started(state.queue).queue == state.queue,
        started(state.queue).files.len() == 0,
        started(state.queue).visited.len() == 0,
{
    let next = step(disk, state);
    assert(next.queue.take(state.queue.len() - 1) =~= state.queue.drop_first());
    assert(next.files.take(state.files.len() as int) =~= state.files);
}

// ---------------------------------------------------------------------------
// Entry points
// ---------------------------------------------------------------------------

/// The traversal begins at the `README.md` of the repository and at each path
/// named `README.md`, in the order of the listing, and nowhere else.
pub proof fn law_traversal_begins_at_index_files(
    repo_root: Seq<char>,
    a: Seq<Seq<char>>,
    b: Seq<Seq<char>>,
    path: Seq<char>,
)
    ensures
        entry_points(repo_root, Seq::empty()) == seq![joined_path(repo_root, "README.md"@)],
        entry_points(repo_root, a + seq![path] + b) == entry_points(repo_root, a) + (if file_name(
            path,
        ) == "README.md"@ {
            seq![path]
        } else {
            Seq::<Seq<char>>::empty()
        }) + index_files(b),
        entry_points(repo_root, b) == seq![joined_path(repo_root, "README.md"@)] + index_files(b),
{
    let one = seq![path];
    assert(one.drop_last() =~= Seq::empty());
    assert(index_files(one.drop_last()) =~= Seq::empty());
    lemma_index_files_add(a + one, b);
    lemma_index_files_add(a, one);
    let first = seq![joined_path(repo_root, "README.md"@)];
    let own = index_files(one);
    assert(own =~= if file_name(path) == "README.md"@ {
        one
    } else {
        Seq::<Seq<char>>::empty()
    });
    assert(first + (index_files(a) + own + index_files(b)) =~= first + index_files(a) + own
        + index_files(b));
    assert(first + Seq::<Seq<char>>::empty() =~= first);
}

proof fn lemma_index_files_add(a: Seq<Seq<char>>, b: Seq<Seq<char>>)
    ensures
        index_files(a + b) == index_files(a) + index_files(b),
    decreases b.len(),
{
    if b.len() == 0 {
        assert(a + b =~= a);
        assert(index_files(a) + index_files(b) =~= index_files(a));
    } else {
        lemma_index_files_add(a, b.drop_last());
        assert((a + b).drop_last() =~= a + b.drop_last());
        assert((a + b).last() == b.last());
        assert(index_files(a + b) =~= index_files(a) + index_files(b));
    }
}

// ---------------------------------------------------------------------------
// Listing
// ---------------------------------------------------------------------------

/// Every entry is judged on its own: it is a file or is left out, whatever
/// stands in front and behind.
pub proof fn law_every_file_is_listed(a: Seq<EntryView>, entry: EntryView, b: Seq<EntryView>)
    ensures
        files_among(Seq::empty()) == Seq::<Seq<char>>::empty(),
        files_among(a + seq![entry] + b) == files_among(a) + (if entry.is_file {
            seq![entry.path]
        } else {
            Seq::<Seq<char>>::empty()
        }) + files_among(b),
{
    let one = seq![entry];
    assert(one.drop_last() =~= Seq::empty());
    assert(files_among(one.drop_last()) =~= Seq::empty());
    lemma_files_add(a + one, b);
    lemma_files_add(a, one);
    assert(files_among(one) =~= if entry.is_file {
        seq![entry.path]
    } else {
        Seq::<Seq<char>>::empty()
    });
}

proof fn lemma_files_add(a: Seq<EntryView>, b: Seq<EntryView>)
    ensures
        files_among(a + b) == files_among(a) + files_among(b),
    decreases b.len(),
{
    if b.len() == 0 {
        assert(a + b =~= a);
        assert(files_among(a) + files_among(b) =~= files_among(a));
    } else {
        lemma_files_add(a, b.drop_last());
        assert((a + b).drop_last() =~= a + b.drop_last());
        assert((a + b).last() == b.last());
        assert(files_among(a + b) =~= files_among(a) + files_among(b));
    }
}

/// Every path is chosen by its own extension, whatever stands in front and
/// behind.
pub proof fn law_paths_are_chosen_by_extension(
    a: Seq<Seq<char>>,
    path: Seq<char>,
    b: Seq<Seq<char>>,
    wanted: Seq<char>,
)
    ensures
        with_extension(Seq::empty(), wanted) == Seq::<Seq<char>>::empty(),
        with_extension(a + seq![path] + b, wanted) == with_extension(a, wanted) + (if extension(
            path,
        ) == Some(wanted) {
            seq![path]
        } else {
            Seq::<Seq<char>>::empty()
        }) + with_extension(b, wanted),
{
    let one = seq![path];
    assert(one.drop_last() =~= Seq::empty());
    assert(with_extension(one.drop_last(), wanted) =~= Seq::empty());
    lemma_with_extension_add(a + one, b, wanted);
    lemma_with_extension_add(a, one, wanted);
    assert(with_extension(one, wanted) =~= if extension(path) == Some(wanted) {
        seq![path]
    } else {
        Seq::<Seq<char>>::empty()
    });
}

proof fn lemma_with_extension_add(a: Seq<Seq<char>>, b: Seq<Seq<char>>, wanted: Seq<char>)
    ensures
        with_extension(a + b, wanted) == with_extension(a, wanted) + with_extension(b, wanted),
    decreases b.len(),
{
    if b.len() == 0 {
        assert(a + b =~= a);
        assert(with_extension(a, wanted) + with_extension(b, wanted) =~= with_extension(a, wanted));
    } else {
        lemma_with_extension_add(a, b.drop_last(), wanted);
        assert((a + b).drop_last() =~= a + b.drop_last());
        assert((a + b).last() == b.last());
        assert(with_extension(a + b, wanted) =~= with_extension(a, wanted) + with_extension(
            b,
            wanted,
        ));
    }
}

/// The markdown files of a listing are its files with the extension `md`,
/// each as often as it is listed, and none in front of one that is listed
/// before it.
pub proof fn law_markdown_files_are_listed(entries: Seq<EntryView>, i: int, j: int)
    ensures
        markdown_files(entries).to_multiset() == with_extension(
            files_among(entries),
            "md"@,
        ).to_multiset(),
        0 <= i < j < markdown_files(entries).len() ==> !path_before(
            markdown_files(entries)[j],
            markdown_files(entries)[i],
        ),
{
    law_sorted_paths_are_in_order(with_extension(files_among(entries), "md"@), i, j);
}

/// The models of listings, documents and files hold all that was found.
pub proof fn law_models_hold_every_file(
    entries: Seq<Entry>,
    docs: Seq<DocFile>,
    files: Seq<TextFile>,
    borrowed: Seq<&TextFile>,
    i: int,
)
    ensures
        entry_views(entries).len() == entries.len(),
        0 <= i < entries.len() ==> entry_views(entries)[i].path == entries[i].path@ && entry_views(
            entries,
        )[i].is_file == entries[i].is_file,
        doc_views(docs).len() == docs.len(),
        0 <= i < docs.len() ==> doc_views(docs)[i].path == docs[i].path@ && doc_views(
            docs,
        )[i].canonical == docs[i].canonical@,
        text_file_views(files).len() == files.len(),
        0 <= i < files.len() ==> text_file_views(files)[i].path == files[i].path@
            && text_file_views(files)[i].text == files[i].text@,
        borrowed_file_views(borrowed).len() == borrowed.len(),
        0 <= i < borrowed.len() ==> borrowed_file_views(borrowed)[i].path == borrowed[i].path@
            && borrowed_file_views(borrowed)[i].text == borrowed[i].text@,
{
}

/// The models of what a driver reports and is asked for say the same.
pub proof fn law_models_hold_events_and_actions(
    file: String,
    found: Option<String>,
    text: Option<String>,
)
    ensures
        Event::Begin@ == EventView::Begin,
        Event::Found(found)@ == EventView::Found(opt_view(found)),
        Event::Read(file, text)@ == EventView::Read(file@, opt_view(text)),
        Action::LookUp(file)@ == ActionView::LookUp(file@),
        Action::Read(file)@ == ActionView::Read(file@),
        Action::Done@ == ActionView::Done,
{
}

// ---------------------------------------------------------------------------
// Orphans
// ---------------------------------------------------------------------------

/// Every document is judged on its own: it is an orphan exactly if the file
/// that it is was not reached, whatever the other documents are.
pub proof fn law_every_unreached_document_is_an_orphan(
    a: Seq<DocFileView>,
    doc: DocFileView,
    b: Seq<DocFileView>,
    reached: Seq<Seq<char>>,
)
    ensures
        orphans(Seq::empty(), reached) == Seq::<Seq<char>>::empty(),
        orphans(a + seq![doc] + b, reached) == orphans(a, reached) + (if reached.contains(
            doc.canonical,
        ) {
            Seq::<Seq<char>>::empty()
        } else {
            seq![doc.path]
        }) + orphans(b, reached),
{
    let one = seq![doc];
    assert(one.drop_last() =~= Seq::empty());
    assert(orphans(one.drop_last(), reached) =~= Seq::empty());
    lemma_orphans_add(a + one, b, reached);
    lemma_orphans_add(a, one, reached);
    assert(orphans(one, reached) =~= if reached.contains(doc.canonical) {
        Seq::<Seq<char>>::empty()
    } else {
        seq![doc.path]
    });
}

proof fn lemma_orphans_add(a: Seq<DocFileView>, b: Seq<DocFileView>, reached: Seq<Seq<char>>)
    ensures
        orphans(a + b, reached) == orphans(a, reached) + orphans(b, reached),
    decreases b.len(),
{
    if b.len() == 0 {
        assert(a + b =~= a);
        assert(orphans(a, reached) + orphans(b, reached) =~= orphans(a, reached));
    } else {
        lemma_orphans_add(a, b.drop_last(), reached);
        assert((a + b).drop_last() =~= a + b.drop_last());
        assert((a + b).last() == b.last());
        assert(orphans(a + b, reached) =~= orphans(a, reached) + orphans(b, reached));
    }
}

/// Every orphan is reported, by its path as seen from the root of the
/// repository and with the severity of the newer rules, unless the rule is
/// off.
pub proof fn law_every_orphan_is_reported(
    repo_root: Seq<char>,
    paths: Seq<Seq<char>>,
    config: CheckConfig,
    i: int,
)
    ensures
        !config.check_orphaned_docs ==> orphan_findings(repo_root, paths, config).len() == 0,
        config.check_orphaned_docs ==> orphan_findings(repo_root, paths, config).len()
            == paths.len(),
        config.check_orphaned_docs && 0 <= i < paths.len() ==> {
            let finding = orphan_findings(repo_root, paths, config)[i];
            &&& finding.severity == config.new_check_severity
            &&& finding.message == relative_path(repo_root, paths[i])
                + ": orphaned doc - not reachable from README.md or any docs index file"@
        },
{
}

} // verus!
