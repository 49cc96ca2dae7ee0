//! Files with their text, and the order in which they are gone through.

use crate::order::{
    are_distinct_paths, components, insert_path, law_same_paths_are_listed_alike, path_before,
    path_comes_before, sort_paths,
};
use vstd::prelude::*;

verus! {

/// A file and its text.
#[derive(Debug)]
pub struct TextFile {
    /// The path under which it was found.
    pub path: String,
    /// What it holds.
    pub text: String,
}

/// The model of a [`TextFile`].
pub struct TextFileView {
    pub path: Seq<char>,
    pub text: Seq<char>,
}

impl View for TextFile {
    type V = TextFileView;

    open spec fn view(&self) -> TextFileView {
        TextFileView { path: self.path@, text: self.text@ }
    }
}

/// The models of a list of files.
pub open spec fn text_file_views(list: Seq<TextFile>) -> Seq<TextFileView> {
    list.map_values(|file: TextFile| file@)
}

/// The models of a list of borrowed files.
pub open spec fn borrowed_file_views(list: Seq<&TextFile>) -> Seq<TextFileView> {
    list.map_values(|file: &TextFile| file@)
}

/// The paths of a list of files.
pub open spec fn file_paths(list: Seq<TextFileView>) -> Seq<Seq<char>> {
    list.map_values(|file: TextFileView| file.path)
}

/// `list`, which is in order, with `file` put behind all files that it is not
/// listed before.
pub open spec fn insert_file(list: Seq<TextFileView>, file: TextFileView) -> Seq<TextFileView>
    decreases list.len(),
{
    if list.len() > 0 && path_before(file.path, list.last().path) {
        insert_file(list.drop_last(), file).push(list.last())
    } else {
        list.push(file)
    }
}

/// The files in the order of their paths.
pub open spec fn sort_files(list: Seq<TextFileView>) -> Seq<TextFileView>
    decreases list.len(),
{
    if list.len() == 0 {
        seq![]
    } else {
        insert_file(sort_files(list.drop_last()), list.last())
    }
}

// ---------------------------------------------------------------------------
// Laws
// ---------------------------------------------------------------------------

proof fn lemma_insert_file(list: Seq<TextFileView>, file: TextFileView)
    ensures
        file_paths(insert_file(list, file)) == insert_path(file_paths(list), file.path),
        insert_file(list, file).to_multiset() == list.to_multiset().insert(file),
    decreases list.len(),
{
    broadcast use vstd::seq_lib::group_to_multiset_ensures;

    if list.len() > 0 && path_before(file.path, list.last().path) {
        let front = list.drop_last();
        let inserted = insert_file(front, file);
        lemma_insert_file(front, file);
        assert(file_paths(list).drop_last() =~= file_paths(front));
        assert(file_paths(inserted.push(list.last())) =~= file_paths(inserted).push(
            list.last().path,
        ));
        assert(list =~= front.push(list.last()));
        assert(insert_file(list, file).to_multiset() =~= list.to_multiset().insert(file));
    } else {
        assert(file_paths(list.push(file)) =~= file_paths(list).push(file.path));
    }
}

/// Sorting keeps the files, each as often as it was there, and orders them as
/// their paths are ordered.
pub proof fn law_files_are_sorted_by_path(list: Seq<TextFileView>)
    ensures
        file_paths(sort_files(list)) == sort_paths(file_paths(list)),
        sort_files(list).to_multiset() == list.to_multiset(),
    decreases list.len(),
{
    broadcast use vstd::seq_lib::group_to_multiset_ensures;

    if list.len() > 0 {
        let front = list.drop_last();
        law_files_are_sorted_by_path(front);
        lemma_insert_file(sort_files(front), list.last());
        assert(file_paths(list).drop_last() =~= file_paths(front));
        assert(list =~= front.push(list.last()));
    } else {
        assert(file_paths(sort_files(list)) =~= sort_paths(file_paths(list)));
        assert(sort_files(list) =~= list);
    }
}

/// Sorting keeps the files.
pub proof fn lemma_sorted_files_hold(list: Seq<TextFileView>, file: TextFileView)
    ensures
        sort_files(list).contains(file) <==> list.contains(file),
{
    broadcast use vstd::seq_lib::group_to_multiset_ensures;

    law_files_are_sorted_by_path(list);
    assert(sort_files(list).to_multiset().count(file) == list.to_multiset().count(file));
}

/// The paths of two lists of the same files are the same.
proof fn lemma_same_file_paths(
    first: Seq<TextFileView>,
    second: Seq<TextFileView>,
    path: Seq<char>,
)
    requires
        forall|file: TextFileView| #[trigger] first.contains(file) ==> second.contains(file),
        file_paths(first).contains(path),
    ensures
        file_paths(second).contains(path),
{
    let i = choose|i: int| 0 <= i < first.len() && file_paths(first)[i] == path;
    assert(first.contains(first[i]));
    let j = choose|j: int| 0 <= j < second.len() && second[j] == first[i];
    assert(file_paths(second)[j] == path);
}

/// However the files were found, they are gone through in the same order, as
/// long as each path was found once.
pub proof fn law_same_files_are_sorted_alike(
    first: Seq<TextFileView>,
    second: Seq<TextFileView>,
)
    requires
        are_distinct_paths(file_paths(first)),
        are_distinct_paths(file_paths(second)),
        forall|file: TextFileView| #[trigger] first.contains(file) <==> second.contains(file),
    ensures
        sort_files(first) == sort_files(second),
{
    let a = sort_files(first);
    let b = sort_files(second);
    law_files_are_sorted_by_path(first);
    law_files_are_sorted_by_path(second);
    assert forall|path: Seq<char>| #[trigger] file_paths(first).contains(path) <==> file_paths(
        second,
    ).contains(path) by {
        if file_paths(first).contains(path) {
            lemma_same_file_paths(first, second, path);
        }
        if file_paths(second).contains(path) {
            lemma_same_file_paths(second, first, path);
        }
    }
    law_same_paths_are_listed_alike(file_paths(first), file_paths(second));
    assert(file_paths(a).len() == a.len() && file_paths(b).len() == b.len());
    assert forall|i: int| 0 <= i < a.len() implies a[i] == b[i] by {
        assert(file_paths(a)[i] == a[i].path && file_paths(b)[i] == b[i].path);
        assert(a.contains(a[i]) && b.contains(b[i]));
        lemma_sorted_files_hold(first, a[i]);
        lemma_sorted_files_hold(second, b[i]);
        assert(first.contains(b[i]));
        let x = choose|x: int| 0 <= x < first.len() && first[x] == a[i];
        let y = choose|y: int| 0 <= y < first.len() && first[y] == b[i];
        assert(file_paths(first)[x] == file_paths(first)[y]);
        if x < y {
            assert(components(file_paths(first)[x]) != components(
                file_paths(first)[y],
            ));
        } else if y < x {
            assert(components(file_paths(first)[y]) != components(
                file_paths(first)[x],
            ));
        }
    }
    assert(a =~= b);
}

// ---------------------------------------------------------------------------
// Executable functions
// ---------------------------------------------------------------------------

/// Puts `file` into `list`, which is in order, behind all files that it is
/// not listed before.
fn insert_in_order<'a>(list: &mut Vec<&'a TextFile>, file: &'a TextFile)
    ensures
        borrowed_file_views(final(list)@) == insert_file(borrowed_file_views(old(list)@), file@),
{
    let ghost before = borrowed_file_views(list@);
    let mut at: usize = list.len();
    assert(before.take(at as int) =~= before);
    assert(insert_file(before.take(at as int), file@) + before.skip(at as int) =~= insert_file(
        before,
        file@,
    ));
    while at > 0 && path_comes_before(&file.path, &list[at - 1].path)
        invariant
            at <= list@.len(),
            before == borrowed_file_views(list@),
            insert_file(before.take(at as int), file@) + before.skip(at as int) == insert_file(
                before,
                file@,
            ),
        decreases at,
    {
        proof {
            let part = before.take(at as int);
            assert(part.last() == list@[at - 1]@);
            assert(part.drop_last() =~= before.take(at - 1));
            assert(insert_file(part.drop_last(), file@).push(part.last()) + before.skip(at as int)
                =~= insert_file(part.drop_last(), file@) + before.skip(at - 1));
        }
        at = at - 1;
    }
    proof {
        let part = before.take(at as int);
        if at > 0 {
            assert(part.last() == list@[at - 1]@);
        }
        assert(insert_file(part, file@) =~= part.push(file@));
        assert(before.insert(at as int, file@) =~= part.push(file@) + before.skip(at as int));
    }
    list.insert(at, file);
    assert(borrowed_file_views(list@) =~= before.insert(at as int, file@));
}

/// The files in the order of their paths.
pub fn sorted_files<'a>(files: &'a Vec<TextFile>) -> (sorted: Vec<&'a TextFile>)
    ensures
        borrowed_file_views(sorted@) == sort_files(text_file_views(files@)),
{
    let mut sorted: Vec<&'a TextFile> = Vec::new();
    let ghost all = text_file_views(files@);
    assert(borrowed_file_views(sorted@) =~= Seq::empty());
    let mut i: usize = 0;
    while i < files.len()
        invariant
            i <= files@.len(),
            all == text_file_views(files@),
            borrowed_file_views(sorted@) == sort_files(all.take(i as int)),
        decreases files@.len() - i,
    {
        proof {
            assert(all.take(i + 1).drop_last() =~= all.take(i as int));
            assert(all.take(i + 1).last() == files@[i as int]@);
        }
        insert_in_order(&mut sorted, &files[i]);
        i = i + 1;
    }
    assert(all.take(all.len() as int) =~= all);
    sorted
}

} // verus!
