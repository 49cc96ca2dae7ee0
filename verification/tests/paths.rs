use doc_checker::order::{comes_before, path_comes_before, paths_with_extension, sorted_with_extension};
use doc_checker::paths::{extension_of, file_name_of, has_extension, join_path, parent_of, relative_to};

fn strings(list: &[&str]) -> Vec<String> {
    list.iter().map(|s| s.to_string()).collect()
}

#[test]
fn paths_are_taken_apart() {
    assert_eq!(file_name_of("/r/docs/a.md"), "a.md");
    assert_eq!(file_name_of("a.md/"), "a.md");
    assert_eq!(file_name_of("/"), "");
    assert_eq!(extension_of("/r/a.tar.md"), Some("md".to_string()));
    assert_eq!(extension_of("/r/.md"), None);
    assert_eq!(extension_of("/r/a."), Some("".to_string()));
    assert_eq!(extension_of("/r.d/a"), None);
    assert_eq!(extension_of("/r/.."), None);
    assert!(has_extension("a.rs", "rs"));
    assert!(!has_extension("a.RS", "rs"));
    assert_eq!(parent_of("/r/docs/a.md"), "/r/docs");
    assert_eq!(parent_of("/a.md"), "/");
    assert_eq!(parent_of("a.md"), "");
    assert_eq!(parent_of("/"), ".");
}

#[test]
fn paths_agree_with_the_standard_library() {
    for path in ["/r/docs/a.md", "a.md", "/a.md", "a/b.tar.gz", "a/.hidden", "a/..", "../../x/y.rs"] {
        let own = std::path::Path::new(path);
        if let Some(name) = own.file_name() {
            assert_eq!(file_name_of(path), name.to_str().unwrap());
            assert_eq!(parent_of(path), own.parent().unwrap().to_str().unwrap());
        }
        assert_eq!(
            extension_of(path),
            own.extension().map(|e| e.to_str().unwrap().to_string())
        );
        assert_eq!(join_path(path, "z/w.md"), own.join("z/w.md").to_str().unwrap());
        assert_eq!(join_path(path, "/abs"), own.join("/abs").to_str().unwrap());
    }
}

#[test]
fn paths_are_seen_from_the_root() {
    assert_eq!(relative_to("../..", "../../docs/a.md"), "docs/a.md");
    assert_eq!(relative_to("/r/", "/r/docs/a.md"), "docs/a.md");
    assert_eq!(relative_to("/r", "/rest/a.md"), "/rest/a.md");
    assert_eq!(relative_to("/r", "/r/docs\\a.md"), "docs/a.md");
    assert_eq!(relative_to("", "docs/a.md"), "docs/a.md");
    assert_eq!(relative_to("/r", "/r"), "");
}

#[test]
fn path_order_is_that_of_the_standard_library() {
    let paths = [
        "a", "a/b", "a-b", "a.b", "a//c", "./a", "../a", "/a", "/", "", "b/./a", "b/a", ".", "..", "a/..",
        "é", "z", "a/b/c",
    ];
    for x in paths {
        for y in paths {
            assert_eq!(
                path_comes_before(x, y),
                std::path::Path::new(x) < std::path::Path::new(y),
                "{} {}",
                x,
                y
            );
            assert_eq!(comes_before(x, y), x < y);
        }
    }
}

#[test]
fn sorting_is_stable_and_complete() {
    let list = strings(&["b/a.rs", "x.md", "a//c.rs", "a/c.rs", "a/b.rs", "b/a.rs"]);
    assert_eq!(
        sorted_with_extension(&list, "rs"),
        strings(&["a/b.rs", "a//c.rs", "a/c.rs", "b/a.rs", "b/a.rs"])
    );
    assert_eq!(
        paths_with_extension(&list, "rs"),
        strings(&["b/a.rs", "a//c.rs", "a/c.rs", "a/b.rs", "b/a.rs"])
    );
}

#[test]
fn seen_from_the_root_undoes_joining() {
    for root in ["../..", "/r", "/r/", "", "/"] {
        assert_eq!(relative_to(root, &join_path(root, "docs/a.md")), "docs/a.md");
        assert_eq!(relative_to(root, &join_path(root, "docs\\a.md")), "docs/a.md");
    }
}
