//! Taking paths apart and putting them together.

use crate::paths::{
    extension, file_name, joined_path, last_index, parent_dir, relative_path,
    without_trailing_slashes,
};
use crate::text::{replace_char, starts_with};
use vstd::prelude::*;

verus! {

/// The slash between two segments.
pub open spec fn slash() -> Seq<char> {
    seq!['/']
}

/// A segment of a path: not empty, and without a slash.
pub open spec fn is_segment(name: Seq<char>) -> bool {
    name.len() > 0 && !name.contains('/')
}

/// A path is put behind a directory with one slash in between. An absolute
/// path stays as it is, and behind nothing so does any path.
pub proof fn law_paths_are_joined_with_a_slash(base: Seq<char>, rest: Seq<char>)
    ensures
        starts_with_slash(rest) ==> joined_path(base, rest) == rest,
        !starts_with_slash(rest) && base.len() > 0 && base.last() != '/' ==> joined_path(base, rest)
            == base + slash() + rest,
        !starts_with_slash(rest) ==> joined_path(base + slash(), rest) == base + slash() + rest,
        joined_path(Seq::empty(), rest) == rest,
{
    reveal_strlit("/");
    assert("/"@ =~= slash());
    assert((base + slash()).last() == '/');
    assert(Seq::<char>::empty() + rest =~= rest);
}

/// An absolute path.
pub open spec fn starts_with_slash(path: Seq<char>) -> bool {
    path.len() > 0 && path[0] == '/'
}

/// The last place of a character.
proof fn lemma_last_index(a: Seq<char>, c: char, b: Seq<char>)
    requires
        !b.contains(c),
    ensures
        last_index(a + seq![c] + b, c) == a.len(),
        last_index(b, c) == -1,
    decreases b.len(),
{
    let s = a + seq![c] + b;
    if b.len() == 0 {
        assert(s.last() == c);
    } else {
        let less = b.drop_last();
        assert(b.contains(b[b.len() - 1]));
        assert(s.last() == b.last());
        assert(s.drop_last() =~= a + seq![c] + less);
        assert(!less.contains(c)) by {
            assert forall|i: int| 0 <= i < less.len() implies less[i] != c by {
                assert(b.contains(b[i]));
            }
        }
        lemma_last_index(a, c, less);
    }
}

/// A path that ends in a segment has no slashes to lose.
proof fn lemma_no_trailing_slash(path: Seq<char>)
    requires
        path.len() > 0 ==> path.last() != '/',
    ensures
        without_trailing_slashes(path) == path,
        without_trailing_slashes(path + slash()) == path,
{
    assert((path + slash()).last() == '/');
    assert((path + slash()).drop_last() =~= path);
}

/// The last segment of a path is its name. Slashes behind it make no
/// difference.
pub proof fn law_name_is_the_last_segment(dir: Seq<char>, name: Seq<char>, path: Seq<char>)
    requires
        is_segment(name),
    ensures
        file_name(name) == name,
        file_name(dir + slash() + name) == name,
        file_name(path + slash()) == file_name(path),
{
    let s = dir + slash() + name;
    assert(name.contains(name[name.len() - 1]));
    assert(s.last() == name.last());
    lemma_no_trailing_slash(s);
    lemma_no_trailing_slash(name);
    lemma_last_index(dir, '/', name);
    assert(s.subrange((dir.len() + 1) as int, s.len() as int) =~= name);
    assert(name.subrange(0, name.len() as int) =~= name);
    assert((path + slash()).last() == '/');
    assert((path + slash()).drop_last() =~= path);
}

/// The directory of a path is what stands in front of its last segment,
/// without the slashes in between; the root for a segment right below it, and
/// nothing for a segment alone.
pub proof fn law_parent_stands_in_front_of_the_name(
    dir: Seq<char>,
    name: Seq<char>,
    path: Seq<char>,
)
    requires
        is_segment(name),
    ensures
        dir.len() > 0 && dir.last() != '/' ==> parent_dir(dir + slash() + name) == dir,
        parent_dir(dir + slash() + slash() + name) == parent_dir(dir + slash() + name),
        parent_dir(slash() + name) == slash(),
        parent_dir(name) == Seq::<char>::empty(),
        path.len() > 0 ==> parent_dir(path + slash()) == parent_dir(path),
        parent_dir(Seq::empty()) == seq!['.'],
{
    reveal_strlit("/");
    reveal_strlit(".");
    assert("/"@ =~= slash());
    assert("."@ =~= seq!['.']);
    assert(name.contains(name[name.len() - 1]));
    lemma_parent(dir, name);
    lemma_parent(dir + slash(), name);
    lemma_parent(Seq::empty(), name);
    assert(Seq::<char>::empty() + slash() + name =~= slash() + name);
    assert((dir + slash()).last() == '/');
    assert((dir + slash()).drop_last() =~= dir);
    if dir.len() > 0 && dir.last() != '/' {
        lemma_no_trailing_slash(dir);
    }
    lemma_no_trailing_slash(name);
    lemma_last_index(dir, '/', name);
    assert((path + slash()).last() == '/');
    assert((path + slash()).drop_last() =~= path);
}

proof fn lemma_parent(dir: Seq<char>, name: Seq<char>)
    requires
        is_segment(name),
    ensures
        parent_dir(dir + slash() + name) == if without_trailing_slashes(dir).len() == 0 {
            "/"@
        } else {
            without_trailing_slashes(dir)
        },
{
    let s = dir + slash() + name;
    assert(name.contains(name[name.len() - 1]));
    assert(s.last() == name.last());
    lemma_no_trailing_slash(s);
    lemma_last_index(dir, '/', name);
    assert(s.subrange(0, dir.len() as int) =~= dir);
}

/// The extension is what stands behind the last dot of the name, whatever the
/// directory. A name without a dot, or with its only dot in front, has none.
pub proof fn law_extension_stands_behind_the_last_dot(
    dir: Seq<char>,
    stem: Seq<char>,
    ext: Seq<char>,
)
    requires
        !stem.contains('/'),
        !ext.contains('/'),
        !ext.contains('.'),
    ensures
        stem.len() > 0 && !(stem == seq!['.'] && ext.len() == 0) ==> {
            &&& extension(dir + slash() + (stem + seq!['.'] + ext)) == Some(ext)
            &&& extension(stem + seq!['.'] + ext) == Some(ext)
        },
        extension(dir + slash() + (seq!['.'] + ext)) is None,
        extension(seq!['.'] + ext) is None,
        ext.len() > 0 ==> extension(dir + slash() + ext) is None,
        ext.len() > 0 ==> extension(ext) is None,
        extension(dir + slash() + seq!['.', '.']) is None,
        extension(seq!['.', '.']) is None,
{
    let dot = seq!['.'];
    reveal_strlit("..");
    assert(".."@ =~= seq!['.', '.']);
    let name = stem + dot + ext;
    assert(is_segment(name)) by {
        assert forall|i: int| 0 <= i < name.len() implies name[i] != '/' by {
            if i < stem.len() {
                assert(stem.contains(stem[i]));
            } else if i > stem.len() {
                assert(ext.contains(ext[i - stem.len() - 1]));
            }
        }
    }
    law_name_is_the_last_segment(dir, name, dir);
    lemma_last_index(stem, '.', ext);
    assert(name.subrange((stem.len() + 1) as int, name.len() as int) =~= ext);
    if stem.len() > 0 && name == ".."@ {
        assert(stem.len() + ext.len() == 1);
        assert(stem[0] == name[0]);
        assert(stem =~= seq!['.']);
    }
    let hidden = dot + ext;
    assert(is_segment(hidden)) by {
        assert forall|i: int| 0 <= i < hidden.len() implies hidden[i] != '/' by {
            if i > 0 {
                assert(ext.contains(ext[i - 1]));
            }
        }
    }
    law_name_is_the_last_segment(dir, hidden, dir);
    lemma_last_index(Seq::empty(), '.', ext);
    assert(Seq::<char>::empty() + dot + ext =~= hidden);
    if ext.len() > 0 {
        law_name_is_the_last_segment(dir, ext, dir);
    }
    let up = seq!['.', '.'];
    assert(is_segment(up));
    law_name_is_the_last_segment(dir, up, dir);
}

/// A path under a root is seen from there as what follows the root, with
/// forward slashes; any other path is seen as it is, with forward slashes.
pub proof fn law_paths_are_seen_from_the_root(root: Seq<char>, rest: Seq<char>, path: Seq<char>)
    ensures
        root.len() > 0 && root.last() != '/' ==> relative_path(root, root + slash() + rest)
            == replace_char(rest, '\\', '/'),
        relative_path(root + slash(), root + slash() + rest) == replace_char(rest, '\\', '/'),
        relative_path(Seq::empty(), path) == replace_char(path, '\\', '/'),
        relative_path(root, root) == Seq::<char>::empty(),
        !lies_under(path, root) ==> relative_path(root, path) == replace_char(path, '\\', '/'),
{
    let whole = root + slash() + rest;
    let long = root + slash();
    assert(whole.subrange(0, root.len() as int) =~= root);
    assert(whole.subrange(0, long.len() as int) =~= long);
    assert(long.last() == '/');
    assert(whole.subrange(long.len() as int, whole.len() as int) =~= rest);
    let behind = whole.subrange(root.len() as int, whole.len() as int);
    assert(behind =~= slash() + rest);
    assert(behind.subrange(1, behind.len() as int) =~= rest);
    let nothing = Seq::<char>::empty();
    assert(path.subrange(0, 0) =~= nothing);
    assert(path.subrange(0, path.len() as int) =~= path);
    assert(root.subrange(0, root.len() as int) =~= root);
    assert(root.subrange(root.len() as int, root.len() as int) =~= nothing);
    assert(replace_char(nothing, '\\', '/') =~= nothing);
    if starts_with(path, root) && !lies_under(path, root) {
        let own = path.subrange(0, root.len() as int);
        let after = path.subrange(root.len() as int, path.len() as int);
        assert(path =~= own + after);
        if after.len() == 0 {
            assert(path =~= root);
        } else if root.len() == 0 || root.last() == '/' {
            assert(path == root + after);
        } else if after[0] == '/' {
            let inner = after.subrange(1, after.len() as int);
            assert(path =~= root + slash() + inner);
        }
    }
}

/// The path is the root, or lies behind it and a slash.
pub open spec fn lies_under(path: Seq<char>, root: Seq<char>) -> bool {
    ||| path == root
    ||| exists|rest: Seq<char>| path == #[trigger] (root + slash() + rest)
    ||| (root.len() == 0 || root.last() == '/') && exists|rest: Seq<char>|
        path == #[trigger] (root + rest)
}

} // verus!
