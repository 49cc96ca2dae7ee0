//! Documents under `docs/` that no index leads to.

use crate::findings::{
    finding_views, orphaned_doc, orphaned_doc_message, CheckConfig, Finding, FindingView,
};
use crate::order::{
    are_distinct_paths, components, law_distinct_paths_are_listed_strictly,
    law_same_paths_are_listed_alike, lemma_sorted_holds, path_before, sort_paths, sorted_paths,
    sorted_with_extension, with_extension,
};
use crate::paths::{
    extension, file_name, file_name_of, join_path, joined_path, relative_path, relative_to,
};
use crate::text::{list_contains, same_text, views};
use crate::traversal::{
    is_reachable, law_traversal_reaches_every_linked_file, reaches, run, some_path_leads_to,
    started, Disk,
};
use vstd::prelude::*;

verus! {

/// A document as it was found, and the file that it is.
#[derive(Debug)]
pub struct DocFile {
    /// The path under which it was found.
    pub path: String,
    /// Its canonical path, or `path` where it has none.
    pub canonical: String,
}

/// The model of a [`DocFile`].
pub struct DocFileView {
    pub path: Seq<char>,
    pub canonical: Seq<char>,
}

impl View for DocFile {
    type V = DocFileView;

    open spec fn view(&self) -> DocFileView {
        DocFileView { path: self.path@, canonical: self.canonical@ }
    }
}

/// The models of a list of documents.
pub open spec fn doc_views(list: Seq<DocFile>) -> Seq<DocFileView> {
    list.map_values(|doc: DocFile| doc@)
}

/// A path found under `docs/`.
#[derive(Debug)]
pub struct Entry {
    pub path: String,
    /// Whether it is a file, as everything is that is no directory.
    pub is_file: bool,
}

/// The model of an [`Entry`].
pub struct EntryView {
    pub path: Seq<char>,
    pub is_file: bool,
}

impl View for Entry {
    type V = EntryView;

    open spec fn view(&self) -> EntryView {
        EntryView { path: self.path@, is_file: self.is_file }
    }
}

/// The models of a list of entries.
pub open spec fn entry_views(list: Seq<Entry>) -> Seq<EntryView> {
    list.map_values(|entry: Entry| entry@)
}

// ---------------------------------------------------------------------------
// Models
// ---------------------------------------------------------------------------

/// The index files among `paths`: those named `README.md`.
pub open spec fn index_files(paths: Seq<Seq<char>>) -> Seq<Seq<char>>
    decreases paths.len(),
{
    if paths.len() == 0 {
        seq![]
    } else {
        let before = index_files(paths.drop_last());
        if file_name(paths.last()) == "README.md"@ {
            before.push(paths.last())
        } else {
            before
        }
    }
}

/// Where the traversal begins: at the `README.md` of the repository and at
/// each index file under `docs/`.
pub open spec fn entry_points(repo_root: Seq<char>, paths: Seq<Seq<char>>) -> Seq<Seq<char>> {
    seq![joined_path(repo_root, "README.md"@)] + index_files(paths)
}

/// The paths among `entries` that are files.
pub open spec fn files_among(entries: Seq<EntryView>) -> Seq<Seq<char>>
    decreases entries.len(),
{
    if entries.len() == 0 {
        seq![]
    } else {
        let before = files_among(entries.drop_last());
        if entries.last().is_file {
            before.push(entries.last().path)
        } else {
            before
        }
    }
}

/// The markdown files among `entries`, in order.
pub open spec fn markdown_files(entries: Seq<EntryView>) -> Seq<Seq<char>> {
    sort_paths(with_extension(files_among(entries), "md"@))
}

/// The documents that were not reached, in the order of the list.
pub open spec fn orphans(docs: Seq<DocFileView>, reached: Seq<Seq<char>>) -> Seq<Seq<char>>
    decreases docs.len(),
{
    if docs.len() == 0 {
        seq![]
    } else {
        let before = orphans(docs.drop_last(), reached);
        if reached.contains(docs.last().canonical) {
            before
        } else {
            before.push(docs.last().path)
        }
    }
}

/// The finding on an orphaned document.
pub open spec fn orphan_finding(
    repo_root: Seq<char>,
    path: Seq<char>,
    config: CheckConfig,
) -> FindingView {
    FindingView {
        severity: config.new_check_severity,
        message: orphaned_doc_message(relative_path(repo_root, path)),
    }
}

/// The findings on orphaned documents, unless the rule is turned off.
pub open spec fn orphan_findings(
    repo_root: Seq<char>,
    paths: Seq<Seq<char>>,
    config: CheckConfig,
) -> Seq<FindingView> {
    if config.check_orphaned_docs {
        paths.map_values(|path: Seq<char>| orphan_finding(repo_root, path, config))
    } else {
        seq![]
    }
}

// ---------------------------------------------------------------------------
// Laws
// ---------------------------------------------------------------------------

/// A document is reported exactly if it was not reached.
pub proof fn law_orphans_were_not_reached(
    docs: Seq<DocFileView>,
    reached: Seq<Seq<char>>,
    path: Seq<char>,
)
    ensures
        orphans(docs, reached).contains(path) <==> exists|i: int|
            0 <= i < docs.len() && #[trigger] docs[i].path == path && !reached.contains(
                docs[i].canonical,
            ),
    decreases docs.len(),
{
    let found = orphans(docs, reached);
    if docs.len() > 0 {
        let front = docs.drop_last();
        let before = orphans(front, reached);
        law_orphans_were_not_reached(front, reached, path);
        if before.contains(path) {
            let k = choose|k: int| 0 <= k < before.len() && before[k] == path;
            assert(found[k] == path);
            let i = choose|i: int|
                0 <= i < front.len() && #[trigger] front[i].path == path && !reached.contains(
                    front[i].canonical,
                );
            assert(docs[i].path == path);
        }
        if found.contains(path) && !before.contains(path) {
            let k = choose|k: int| 0 <= k < found.len() && found[k] == path;
            if k < before.len() {
                assert(before[k] == path);
            }
            assert(docs[docs.len() - 1].path == path);
        }
        if exists|i: int|
            0 <= i < docs.len() && #[trigger] docs[i].path == path && !reached.contains(
                docs[i].canonical,
            ) {
            let i = choose|i: int|
                0 <= i < docs.len() && #[trigger] docs[i].path == path && !reached.contains(
                    docs[i].canonical,
                );
            if i < front.len() {
                assert(front[i].path == path);
            } else {
                assert(found[before.len() as int] == path);
            }
        }
    }
}

/// Once the traversal from the index files has come to its end, a document is
/// reported exactly if no chain of links leads to it from the `README.md` of
/// the repository or an index file under `docs/`.
pub proof fn law_orphans_are_unreachable(
    disk: Disk,
    repo_root: Seq<char>,
    entries: Seq<Seq<char>>,
    docs: Seq<DocFileView>,
    n: nat,
    path: Seq<char>,
)
    requires
        run(disk, started(entry_points(repo_root, entries)), n).queue.len() == 0,
    ensures
        orphans(docs, run(disk, started(entry_points(repo_root, entries)), n).files).contains(path)
            <==> exists|i: int|
            0 <= i < docs.len() && #[trigger] docs[i].path == path && !is_reachable(
                disk,
                entry_points(repo_root, entries),
                docs[i].canonical,
            ),
{
    let seeds = entry_points(repo_root, entries);
    let end = run(disk, started(seeds), n);
    law_orphans_were_not_reached(docs, end.files, path);
    law_traversal_reaches_every_linked_file(disk, seeds, n);
    assert forall|i: int| 0 <= i < docs.len() implies end.files.contains(
        (#[trigger] docs[i]).canonical,
    ) == is_reachable(disk, seeds, docs[i].canonical) by {}
}

/// An index file under `docs/` that leads to a file is never reported,
/// whatever file that is and whether or not anything links to it.
pub proof fn law_index_files_are_no_orphans(
    disk: Disk,
    repo_root: Seq<char>,
    entries: Seq<Seq<char>>,
    docs: Seq<DocFileView>,
    n: nat,
    path: Seq<char>,
)
    requires
        run(disk, started(entry_points(repo_root, entries)), n).queue.len() == 0,
        entries.contains(path),
        file_name(path) == "README.md"@,
        (disk.file_at)(path) is Some,
        forall|i: int|
            0 <= i < docs.len() && (#[trigger] docs[i]).path == path ==> docs[i].canonical == (
            disk.file_at)(path)->0,
    ensures
        !orphans(docs, run(disk, started(entry_points(repo_root, entries)), n).files).contains(
            path,
        ),
        !sort_paths(
            orphans(docs, run(disk, started(entry_points(repo_root, entries)), n).files),
        ).contains(path),
{
    let k = choose|k: int| 0 <= k < entries.len() && entries[k] == path;
    let found = orphans(docs, run(disk, started(entry_points(repo_root, entries)), n).files);
    law_index_files_are_reachable(disk, repo_root, entries, k);
    law_orphans_are_unreachable(disk, repo_root, entries, docs, n, path);
    lemma_sorted_holds(found, path);
}

/// An index file under `docs/` is reachable, whether or not anything links to
/// it.
pub proof fn law_index_files_are_reachable(
    disk: Disk,
    repo_root: Seq<char>,
    entries: Seq<Seq<char>>,
    i: int,
)
    requires
        0 <= i < entries.len(),
        file_name(entries[i]) == "README.md"@,
        (disk.file_at)(entries[i]) is Some,
    ensures
        is_reachable(disk, entry_points(repo_root, entries), (disk.file_at)(entries[i])->0),
{
    let seeds = entry_points(repo_root, entries);
    let file = (disk.file_at)(entries[i])->0;
    lemma_index_files(entries, i);
    let k = choose|k: int|
        0 <= k < index_files(entries).len() && index_files(entries)[k] == entries[i];
    assert(seeds[k + 1] == entries[i]);
    assert(seeds.contains(entries[i]));
    assert(some_path_leads_to(disk, seeds, file));
    assert(reaches(disk, seeds, file, 0));
}

/// Among distinct paths the files are distinct.
proof fn lemma_files_among(entries: Seq<EntryView>, path: Seq<char>)
    requires
        are_distinct_paths(entry_paths(entries)),
    ensures
        are_distinct_paths(files_among(entries)),
        files_among(entries).contains(path) <==> exists|i: int|
            0 <= i < entries.len() && (#[trigger] entries[i]).is_file && entries[i].path == path,
    decreases entries.len(),
{
    if entries.len() > 0 {
        let front = entries.drop_last();
        let last = entries.last();
        let before = files_among(front);
        let after = files_among(entries);
        assert(entry_paths(front) =~= entry_paths(entries).drop_last());
        assert(are_distinct_paths(entry_paths(front)));
        lemma_files_among(front, path);
        if before.contains(path) {
            let k = choose|k: int| 0 <= k < before.len() && before[k] == path;
            assert(after[k] == path);
            let i = choose|i: int|
                0 <= i < front.len() && (#[trigger] front[i]).is_file && front[i].path == path;
            assert(entries[i] == front[i]);
        }
        if after.contains(path) && !before.contains(path) {
            let k = choose|k: int| 0 <= k < after.len() && after[k] == path;
            if k < before.len() {
                assert(before[k] == path);
            }
            assert(entries[entries.len() - 1].is_file);
        }
        if exists|i: int|
            0 <= i < entries.len() && (#[trigger] entries[i]).is_file && entries[i].path == path {
            let i = choose|i: int|
                0 <= i < entries.len() && (#[trigger] entries[i]).is_file && entries[i].path
                    == path;
            if i < front.len() {
                assert(front[i].is_file);
            } else {
                assert(after[before.len() as int] == path);
            }
        }
        if last.is_file {
            assert forall|i: int, j: int| 0 <= i < j < after.len() implies components(
                #[trigger] after[i],
            ) != components(#[trigger] after[j]) by {
                if j < before.len() {
                    assert(before[i] == after[i] && before[j] == after[j]);
                } else {
                    assert(before.contains(before[i]));
                    lemma_files_among(front, before[i]);
                    let k = choose|k: int|
                        0 <= k < front.len() && (#[trigger] front[k]).is_file && front[k].path
                            == before[i];
                    assert(entry_paths(entries)[k] == before[i]);
                    assert(entry_paths(entries)[entries.len() - 1] == last.path);
                }
            }
        }
    }
}

/// Choosing by extension keeps paths distinct.
proof fn lemma_with_extension(list: Seq<Seq<char>>, wanted: Seq<char>, path: Seq<char>)
    requires
        are_distinct_paths(list),
    ensures
        are_distinct_paths(with_extension(list, wanted)),
        with_extension(list, wanted).contains(path) <==> list.contains(path) && extension(path)
            == Some(wanted),
    decreases list.len(),
{
    if list.len() > 0 {
        let front = list.drop_last();
        let before = with_extension(front, wanted);
        let after = with_extension(list, wanted);
        assert forall|i: int, j: int| 0 <= i < j < front.len() implies components(
            #[trigger] front[i],
        ) != components(#[trigger] front[j]) by {
            assert(components(list[i]) != components(list[j]));
        }
        lemma_with_extension(front, wanted, path);
        if before.contains(path) {
            let k = choose|k: int| 0 <= k < before.len() && before[k] == path;
            assert(after[k] == path);
            let i = choose|i: int| 0 <= i < front.len() && front[i] == path;
            assert(list[i] == path);
        }
        if after.contains(path) && !before.contains(path) {
            let k = choose|k: int| 0 <= k < after.len() && after[k] == path;
            if k < before.len() {
                assert(before[k] == path);
            }
            assert(list[list.len() - 1] == path);
        }
        if list.contains(path) && extension(path) == Some(wanted) {
            let i = choose|i: int| 0 <= i < list.len() && list[i] == path;
            if i < front.len() {
                assert(front[i] == path);
            } else {
                assert(after[before.len() as int] == path);
            }
        }
        if extension(list.last()) == Some(wanted) {
            assert forall|i: int, j: int| 0 <= i < j < after.len() implies components(
                #[trigger] after[i],
            ) != components(#[trigger] after[j]) by {
                if j < before.len() {
                    assert(before[i] == after[i] && before[j] == after[j]);
                } else {
                    assert(before.contains(before[i]));
                    lemma_with_extension(front, wanted, before[i]);
                    let k = choose|k: int| 0 <= k < front.len() && front[k] == before[i];
                    assert(components(list[k]) != components(list[list.len() - 1]));
                }
            }
        }
    }
}

/// The paths of a list of entries.
pub open spec fn entry_paths(entries: Seq<EntryView>) -> Seq<Seq<char>> {
    entries.map_values(|entry: EntryView| entry.path)
}

/// Of a listing in which each path stands once, exactly the files with the
/// extension `md` are listed, each once and in the order of their paths.
pub proof fn law_markdown_files_are_listed_in_order(entries: Seq<EntryView>)
    requires
        are_distinct_paths(entry_paths(entries)),
    ensures
        forall|i: int, j: int|
            0 <= i < j < markdown_files(entries).len() ==> path_before(
                #[trigger] markdown_files(entries)[i],
                #[trigger] markdown_files(entries)[j],
            ),
        forall|path: Seq<char>| #[trigger]
            markdown_files(entries).contains(path) <==> extension(path) == Some("md"@) && exists|
                i: int,
            |
                0 <= i < entries.len() && (#[trigger] entries[i]).is_file && entries[i].path
                    == path,
{
    let files = files_among(entries);
    let list = with_extension(files, "md"@);
    lemma_files_among(entries, Seq::empty());
    lemma_with_extension(files, "md"@, Seq::empty());
    law_distinct_paths_are_listed_strictly(list);
    assert forall|path: Seq<char>| #[trigger]
        markdown_files(entries).contains(path) <==> extension(path) == Some("md"@) && exists|
            i: int,
        |
            0 <= i < entries.len() && (#[trigger] entries[i]).is_file && entries[i].path
                == path by {
        lemma_files_among(entries, path);
        lemma_with_extension(files, "md"@, path);
        assert(sort_paths(list).contains(path) <==> list.contains(path));
    }
}

/// The paths of a list of documents.
pub open spec fn doc_paths(docs: Seq<DocFileView>) -> Seq<Seq<char>> {
    docs.map_values(|doc: DocFileView| doc.path)
}

/// Among distinct documents the orphans are distinct.
proof fn lemma_orphans_are_distinct(docs: Seq<DocFileView>, reached: Seq<Seq<char>>)
    requires
        are_distinct_paths(doc_paths(docs)),
    ensures
        are_distinct_paths(orphans(docs, reached)),
    decreases docs.len(),
{
    if docs.len() > 0 {
        let front = docs.drop_last();
        let before = orphans(front, reached);
        let after = orphans(docs, reached);
        assert(doc_paths(front) =~= doc_paths(docs).drop_last());
        assert(are_distinct_paths(doc_paths(front)));
        lemma_orphans_are_distinct(front, reached);
        if !reached.contains(docs.last().canonical) {
            assert forall|i: int, j: int| 0 <= i < j < after.len() implies components(
                #[trigger] after[i],
            ) != components(#[trigger] after[j]) by {
                if j < before.len() {
                    assert(before[i] == after[i] && before[j] == after[j]);
                } else {
                    assert(before.contains(before[i]));
                    law_orphans_were_not_reached(front, reached, before[i]);
                    let k = choose|k: int|
                        0 <= k < front.len() && #[trigger] front[k].path == before[i]
                            && !reached.contains(front[k].canonical);
                    assert(doc_paths(docs)[k] == before[i]);
                    assert(doc_paths(docs)[docs.len() - 1] == docs.last().path);
                }
            }
        }
    }
}

/// Which documents there are and which were reached decides what is reported,
/// and in which order, not the order in which they were found.
pub proof fn law_orphans_ignore_listing_order(
    docs: Seq<DocFileView>,
    other_docs: Seq<DocFileView>,
    reached: Seq<Seq<char>>,
    other_reached: Seq<Seq<char>>,
)
    requires
        are_distinct_paths(doc_paths(docs)),
        are_distinct_paths(doc_paths(other_docs)),
        forall|doc: DocFileView| #[trigger] docs.contains(doc) <==> other_docs.contains(doc),
        forall|file: Seq<char>| #[trigger] reached.contains(file) <==> other_reached.contains(file),
    ensures
        sort_paths(orphans(docs, reached)) == sort_paths(orphans(other_docs, other_reached)),
{
    let first = orphans(docs, reached);
    let second = orphans(other_docs, other_reached);
    lemma_orphans_are_distinct(docs, reached);
    lemma_orphans_are_distinct(other_docs, other_reached);
    assert forall|path: Seq<char>| #[trigger] first.contains(path) <==> second.contains(path) by {
        lemma_orphan_in_other(docs, other_docs, reached, other_reached, path);
        lemma_orphan_in_other(other_docs, docs, other_reached, reached, path);
    }
    law_same_paths_are_listed_alike(first, second);
}

proof fn lemma_orphan_in_other(
    docs: Seq<DocFileView>,
    other_docs: Seq<DocFileView>,
    reached: Seq<Seq<char>>,
    other_reached: Seq<Seq<char>>,
    path: Seq<char>,
)
    requires
        forall|doc: DocFileView| #[trigger] docs.contains(doc) ==> other_docs.contains(doc),
        forall|file: Seq<char>| #[trigger] reached.contains(file) <==> other_reached.contains(file),
    ensures
        orphans(docs, reached).contains(path) ==> orphans(other_docs, other_reached).contains(path),
{
    law_orphans_were_not_reached(docs, reached, path);
    law_orphans_were_not_reached(other_docs, other_reached, path);
    if orphans(docs, reached).contains(path) {
        let i = choose|i: int|
            0 <= i < docs.len() && #[trigger] docs[i].path == path && !reached.contains(
                docs[i].canonical,
            );
        assert(docs.contains(docs[i]));
        let j = choose|j: int| 0 <= j < other_docs.len() && other_docs[j] == docs[i];
        assert(other_docs[j].path == path);
        assert(reached.contains(docs[i].canonical) <==> other_reached.contains(
            docs[i].canonical,
        ));
    }
}

proof fn lemma_index_files(paths: Seq<Seq<char>>, i: int)
    requires
        0 <= i < paths.len(),
        file_name(paths[i]) == "README.md"@,
    ensures
        index_files(paths).contains(paths[i]),
    decreases paths.len(),
{
    let front = paths.drop_last();
    let before = index_files(front);
    let after = index_files(paths);
    if i < front.len() {
        lemma_index_files(front, i);
        let k = choose|k: int| 0 <= k < before.len() && before[k] == front[i];
        assert(after[k] == paths[i]);
    } else {
        assert(after[before.len() as int] == paths[i]);
    }
}

// ---------------------------------------------------------------------------
// Executable functions
// ---------------------------------------------------------------------------

/// The paths at which the traversal begins: the `README.md` of the repository
/// and every `README.md` among `entries`, the paths found under `docs/`.
pub fn doc_entry_points(repo_root: &str, entries: &Vec<String>) -> (points: Vec<String>)
    ensures
        views(points@) == entry_points(repo_root@, views(entries@)),
{
    let mut points: Vec<String> = Vec::new();
    points.push(join_path(repo_root, "README.md"));
    let ghost first = seq![joined_path(repo_root@, "README.md"@)];
    let ghost all = views(entries@);
    assert(views(points@) =~= first + index_files(all.take(0)));
    let mut i: usize = 0;
    while i < entries.len()
        invariant
            i <= entries@.len(),
            all == views(entries@),
            views(points@) == first + index_files(all.take(i as int)),
        decreases entries@.len() - i,
    {
        let ghost before = views(points@);
        proof {
            assert(all.take(i + 1).drop_last() =~= all.take(i as int));
            assert(all.take(i + 1).last() == entries@[i as int]@);
        }
        let name: String = file_name_of(&entries[i]);
        if same_text(&name, "README.md") {
            points.push(entries[i].clone());
            assert(views(points@) =~= before.push(entries@[i as int]@));
            assert(before.push(entries@[i as int]@) =~= first + index_files(
                all.take(i as int),
            ).push(entries@[i as int]@));
        }
        i = i + 1;
    }
    assert(all.take(all.len() as int) =~= all);
    points
}

/// The markdown files among `entries`, the paths found under `docs/`, in
/// order.
pub fn find_all_docs_markdown(entries: &Vec<Entry>) -> (docs: Vec<String>)
    ensures
        views(docs@) == markdown_files(entry_views(entries@)),
{
    let mut files: Vec<String> = Vec::new();
    let ghost all = entry_views(entries@);
    assert(views(files@) =~= files_among(all.take(0)));
    let mut i: usize = 0;
    while i < entries.len()
        invariant
            i <= entries@.len(),
            all == entry_views(entries@),
            views(files@) == files_among(all.take(i as int)),
        decreases entries@.len() - i,
    {
        let ghost before = views(files@);
        proof {
            assert(all.take(i + 1).drop_last() =~= all.take(i as int));
            assert(all.take(i + 1).last() == entries@[i as int]@);
        }
        if entries[i].is_file {
            files.push(entries[i].path.clone());
            assert(views(files@) =~= before.push(entries@[i as int]@.path));
        }
        i = i + 1;
    }
    assert(all.take(all.len() as int) =~= all);
    sorted_with_extension(&files, "md")
}

/// The documents that are none of the files `reached`, of whatever type these
/// are, in the order of their paths.
pub fn find_orphaned_docs(docs: &Vec<DocFile>, reached: &Vec<String>) -> (found: Vec<String>)
    ensures
        views(found@) == sort_paths(orphans(doc_views(docs@), views(reached@))),
{
    let mut found: Vec<String> = Vec::new();
    let ghost all = doc_views(docs@);
    assert(views(found@) =~= orphans(all.take(0), views(reached@)));
    let mut i: usize = 0;
    while i < docs.len()
        invariant
            i <= docs@.len(),
            all == doc_views(docs@),
            views(found@) == orphans(all.take(i as int), views(reached@)),
        decreases docs@.len() - i,
    {
        let ghost before = views(found@);
        proof {
            assert(all.take(i + 1).drop_last() =~= all.take(i as int));
            assert(all.take(i + 1).last() == docs@[i as int]@);
        }
        if !list_contains(reached, &docs[i].canonical) {
            found.push(docs[i].path.clone());
            assert(views(found@) =~= before.push(docs@[i as int]@.path));
        }
        i = i + 1;
    }
    assert(all.take(all.len() as int) =~= all);
    sorted_paths(&found)
}

/// The findings on documents that are none of the files `reached`, all those
/// that a traversal has come to. Their paths are written as seen from
/// `repo_root`. There are none where the rule is turned off.
pub fn check_orphaned_docs(
    repo_root: &str,
    docs: &Vec<DocFile>,
    reached: &Vec<String>,
    config: &CheckConfig,
) -> (findings: Vec<Finding>)
    ensures
        finding_views(findings@) == orphan_findings(
            repo_root@,
            sort_paths(orphans(doc_views(docs@), views(reached@))),
            *config,
        ),
{
    let mut findings: Vec<Finding> = Vec::new();
    assert(finding_views(findings@) =~= Seq::empty());
    if !config.check_orphaned_docs {
        return findings;
    }
    let found: Vec<String> = find_orphaned_docs(docs, reached);
    let ghost wanted = orphan_findings(repo_root@, views(found@), *config);
    let mut i: usize = 0;
    while i < found.len()
        invariant
            i <= found@.len(),
            config.check_orphaned_docs,
            wanted == orphan_findings(repo_root@, views(found@), *config),
            finding_views(findings@) == wanted.take(i as int),
        decreases found@.len() - i,
    {
        let ghost before = finding_views(findings@);
        findings.push(
            Finding {
                severity: config.new_check_severity,
                message: orphaned_doc(&relative_to(repo_root, &found[i])),
            },
        );
        assert(finding_views(findings@) =~= before.push(wanted[i as int]));
        assert(wanted.take(i + 1) =~= before.push(wanted[i as int]));
        i = i + 1;
    }
    assert(wanted.take(wanted.len() as int) =~= wanted);
    findings
}

} // verus!
