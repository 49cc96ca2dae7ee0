//! Paths as text, with `/` between their segments.

use crate::text::{
    matches_at, opt_view, replace_char, same_text, starts_with, text_of, to_chars,
    with_char_replaced,
};
use vstd::prelude::*;
use vstd::string::*;

verus! {

// ---------------------------------------------------------------------------
// Models
// ---------------------------------------------------------------------------

/// `base` with `rest` put behind it. An absolute `rest` takes its place.
pub open spec fn joined_path(base: Seq<char>, rest: Seq<char>) -> Seq<char> {
    if rest.len() > 0 && rest[0] == '/' {
        rest
    } else if base.len() == 0 || base.last() == '/' {
        base + rest
    } else {
        base + "/"@ + rest
    }
}

/// The position of the last `c` in `s`, or -1 where there is none.
pub open spec fn last_index(s: Seq<char>, c: char) -> int
    decreases s.len(),
{
    if s.len() == 0 {
        -1
    } else if s.last() == c {
        s.len() - 1
    } else {
        last_index(s.drop_last(), c)
    }
}

/// A path without slashes at its end.
pub open spec fn without_trailing_slashes(path: Seq<char>) -> Seq<char>
    decreases path.len(),
{
    if path.len() > 0 && path.last() == '/' {
        without_trailing_slashes(path.drop_last())
    } else {
        path
    }
}

/// The last segment of a path.
pub open spec fn file_name(path: Seq<char>) -> Seq<char> {
    let trimmed = without_trailing_slashes(path);
    trimmed.subrange(last_index(trimmed, '/') + 1, trimmed.len() as int)
}

/// What stands behind the last dot of the last segment. A segment that has
/// its only dot in front has no extension, nor has `..`.
pub open spec fn extension(path: Seq<char>) -> Option<Seq<char>> {
    let name = file_name(path);
    let dot = last_index(name, '.');
    if dot <= 0 || name == ".."@ {
        None
    } else {
        Some(name.subrange(dot + 1, name.len() as int))
    }
}

/// The directory that a path lies in: its segments but the last. For a path
/// without segments this is `.`, the current directory.
pub open spec fn parent_dir(path: Seq<char>) -> Seq<char> {
    let trimmed = without_trailing_slashes(path);
    let slash = last_index(trimmed, '/');
    if trimmed.len() == 0 {
        "."@
    } else if slash < 0 {
        Seq::empty()
    } else {
        let parent = without_trailing_slashes(trimmed.subrange(0, slash));
        if parent.len() == 0 {
            "/"@
        } else {
            parent
        }
    }
}

/// `path` as seen from `root`, with forward slashes; all of `path` where it
/// does not lie under `root`.
pub open spec fn relative_path(root: Seq<char>, path: Seq<char>) -> Seq<char> {
    let rest = path.subrange(root.len() as int, path.len() as int);
    let inner = if !starts_with(path, root) {
        path
    } else if root.len() == 0 || root.last() == '/' || rest.len() == 0 {
        rest
    } else if rest[0] == '/' {
        rest.subrange(1, rest.len() as int)
    } else {
        path
    };
    replace_char(inner, '\\', '/')
}

// ---------------------------------------------------------------------------
// Laws
// ---------------------------------------------------------------------------

/// A path that was put behind `root` is seen from `root` as what was put
/// there, with forward slashes.
pub proof fn law_relative_path_undoes_joining(root: Seq<char>, rest: Seq<char>)
    requires
        rest.len() == 0 || rest[0] != '/',
    ensures
        relative_path(root, joined_path(root, rest)) == replace_char(rest, '\\', '/'),
{
    reveal_strlit("/");
    let path = joined_path(root, rest);
    assert(path.subrange(0, root.len() as int) =~= root);
    let behind = path.subrange(root.len() as int, path.len() as int);
    if root.len() == 0 || root.last() == '/' {
        assert(behind =~= rest);
    } else {
        assert(behind =~= "/"@ + rest);
        assert(behind.subrange(1, behind.len() as int) =~= rest);
    }
}

// ---------------------------------------------------------------------------
// Executable functions
// ---------------------------------------------------------------------------

/// Puts `rest` behind `base`. An absolute `rest` takes its place.
pub fn join_path(base: &str, rest: &str) -> (path: String)
    ensures
        path@ == joined_path(base@, rest@),
{
    let first: Vec<char> = to_chars(base);
    let second: Vec<char> = to_chars(rest);
    if second.len() > 0 && second[0] == '/' {
        rest.to_owned()
    } else {
        let mut path: String = base.to_owned();
        if first.len() > 0 && first[first.len() - 1] != '/' {
            path.append("/");
        }
        path.append(rest);
        assert(path@ =~= joined_path(base@, rest@));
        path
    }
}

/// One behind the position of the last `c` in `s[from..to]`, or `from` where
/// there is none.
fn after_last(s: &Vec<char>, c: char, from: usize, to: usize) -> (at: usize)
    requires
        from <= to <= s@.len(),
    ensures
        from <= at <= to,
        at == from + last_index(s@.subrange(from as int, to as int), c) + 1,
{
    let mut at: usize = to;
    let ghost all = s@.subrange(from as int, to as int);
    while at > from && s[at - 1] != c
        invariant
            from <= at <= to <= s@.len(),
            last_index(all, c) == last_index(s@.subrange(from as int, at as int), c),
        decreases at,
    {
        assert(s@.subrange(from as int, at as int).drop_last() =~= s@.subrange(
            from as int,
            at - 1,
        ));
        at = at - 1;
    }
    at
}

/// The length of `s[..to]` without slashes at its end.
fn trim_slashes(s: &Vec<char>, to: usize) -> (length: usize)
    requires
        to <= s@.len(),
    ensures
        length <= to,
        without_trailing_slashes(s@.subrange(0, to as int)) == s@.subrange(0, length as int),
{
    let mut length: usize = to;
    while length > 0 && s[length - 1] == '/'
        invariant
            length <= to <= s@.len(),
            without_trailing_slashes(s@.subrange(0, to as int)) == without_trailing_slashes(
                s@.subrange(0, length as int),
            ),
        decreases length,
    {
        assert(s@.subrange(0, length as int).drop_last() =~= s@.subrange(0, length - 1));
        length = length - 1;
    }
    length
}

/// The last segment of a path.
pub fn file_name_of(path: &str) -> (name: String)
    ensures
        name@ == file_name(path@),
{
    let chars: Vec<char> = to_chars(path);
    assert(chars@.subrange(0, chars@.len() as int) =~= path@);
    let length: usize = trim_slashes(&chars, chars.len());
    let start: usize = after_last(&chars, '/', 0, length);
    assert(chars@.subrange(0, length as int).subrange(start as int, length as int)
        =~= chars@.subrange(start as int, length as int));
    text_of(&chars, start, length)
}

/// What stands behind the last dot of the last segment, if anything.
pub fn extension_of(path: &str) -> (found: Option<String>)
    ensures
        match extension(path@) {
            Some(text) => found matches Some(own) && own@ == text,
            None => found is None,
        },
{
    let name: String = file_name_of(path);
    let chars: Vec<char> = to_chars(&name);
    assert(chars@.subrange(0, chars@.len() as int) =~= name@);
    let at: usize = after_last(&chars, '.', 0, chars.len());
    if at <= 1 || same_text(&name, "..") {
        None
    } else {
        Some(text_of(&chars, at, chars.len()))
    }
}

/// Whether the extension of a path is exactly `wanted`.
pub fn has_extension(path: &str, wanted: &str) -> (found: bool)
    ensures
        found == (extension(path@) == Some(wanted@)),
{
    match extension_of(path) {
        Some(own) => same_text(&own, wanted),
        None => false,
    }
}

/// The directory that a path lies in.
pub fn parent_of(path: &str) -> (parent: String)
    ensures
        parent@ == parent_dir(path@),
{
    let chars: Vec<char> = to_chars(path);
    assert(chars@.subrange(0, chars@.len() as int) =~= path@);
    let length: usize = trim_slashes(&chars, chars.len());
    if length == 0 {
        return ".".to_owned();
    }
    let start: usize = after_last(&chars, '/', 0, length);
    if start == 0 {
        return String::new();
    }
    let slash: usize = start - 1;
    assert(chars@.subrange(0, length as int).subrange(0, slash as int) =~= chars@.subrange(
        0,
        slash as int,
    ));
    let end: usize = trim_slashes(&chars, slash);
    if end == 0 {
        "/".to_owned()
    } else {
        text_of(&chars, 0, end)
    }
}

/// `path` as seen from `root`, with forward slashes.
pub fn relative_to(root: &str, path: &str) -> (relative: String)
    ensures
        relative@ == relative_path(root@, path@),
{
    let base: Vec<char> = to_chars(root);
    let chars: Vec<char> = to_chars(path);
    let inner: String = if !matches_at(&chars, &base, 0) {
        path.to_owned()
    } else if base.len() == 0 || base[base.len() - 1] == '/' || base.len() == chars.len() {
        text_of(&chars, base.len(), chars.len())
    } else if chars[base.len()] == '/' {
        assert(chars@.subrange(base@.len() as int, chars@.len() as int).subrange(
            1,
            chars@.len() - base@.len(),
        ) =~= chars@.subrange(1 + base@.len() as int, chars@.len() as int));
        text_of(&chars, base.len() + 1, chars.len())
    } else {
        path.to_owned()
    };
    with_char_replaced(&inner, '\\', '/')
}

/// The canonical form of `path`, or `path` itself where it has none because
/// nothing exists there. Such a path is never the canonical path of a file, so
/// it makes nothing reachable.
pub fn normalize_path(path: &str, canonical: Option<String>) -> (normalized: String)
    ensures
        normalized@ == match opt_view(canonical) {
            Some(found) => found,
            None => path@,
        },
{
    match canonical {
        Some(found) => found,
        None => path.to_owned(),
    }
}

} // verus!
