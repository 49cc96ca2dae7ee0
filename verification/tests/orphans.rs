use doc_checker::orphans::{doc_entry_points, DocFile, Entry};
use doc_checker::traversal::{Action, Event, Traversal};
use doc_checker::{
    check_orphaned_docs, find_all_docs_markdown, find_orphaned_docs, normalize_path, CheckConfig,
    Severity,
};

fn strings(list: &[&str]) -> Vec<String> {
    list.iter().map(|s| s.to_string()).collect()
}

fn doc(path: &str) -> DocFile {
    DocFile { path: path.to_string(), canonical: path.to_string() }
}

/// The files and texts of a small repository; a path leads to the file once
/// its `x/..` pairs are taken out.
fn text_at(path: &str) -> Option<&'static str> {
    match path {
        "/r/README.md" => Some("[docs](docs/a.md) [web](https://e.com) [gone](docs/gone.md)"),
        "/r/docs/a.md" => Some("[b](b.MD#top) [self](a.md) [pic](pic.png)"),
        "/r/docs/b.MD" => Some("[up](../README.md) [c](sub/../c.md)"),
        "/r/docs/c.md" => Some("no links"),
        "/r/docs/lost.md" => Some("[a](a.md)"),
        "/r/docs/pic.png" => Some("](docs/lost.md)"),
        "/r/docs/sub/README.md" => Some("[d](d.md)"),
        "/r/docs/sub/d.md" => Some(""),
        _ => None,
    }
}

fn canonical(path: &str) -> Option<String> {
    let mut parts: Vec<&str> = Vec::new();
    for part in path.split('/') {
        if part == ".." {
            parts.pop();
        } else {
            parts.push(part);
        }
    }
    let path = parts.join("/");
    text_at(&path).map(|_| path)
}

fn reach(entry_points: &[&str]) -> Vec<String> {
    let mut traversal = Traversal::new(&strings(entry_points));
    let mut action = traversal.advance(Event::Begin);
    loop {
        let event = match action {
            Action::LookUp(path) => Event::Found(canonical(&path)),
            Action::Read(file) => {
                let text = text_at(&file).map(|t| t.to_string());
                Event::Read(file, text)
            }
            Action::Done => return traversal.reached(),
        };
        action = traversal.advance(event);
    }
}

#[test]
fn links_are_followed_breadth_first_and_cycles_end() {
    assert_eq!(
        reach(&["/r/README.md"]),
        strings(&[
            "/r/README.md",
            "/r/docs/a.md",
            "/r/docs/b.MD",
            "/r/docs/c.md"
        ])
    );
}

#[test]
fn missing_and_repeated_entry_points() {
    assert!(reach(&["/r/none.md"]).is_empty());
    assert_eq!(reach(&["/r/docs/c.md", "/r/docs/x/../c.md"]), strings(&["/r/docs/c.md"]));
    assert!(reach(&[]).is_empty());
}

#[test]
fn unreadable_file_is_reached_but_not_followed() {
    let mut traversal = Traversal::new(&strings(&["x.md"]));
    assert_eq!(traversal.advance(Event::Begin), Action::LookUp("x.md".to_string()));
    assert_eq!(
        traversal.advance(Event::Found(Some("/x.md".to_string()))),
        Action::Read("/x.md".to_string())
    );
    assert_eq!(traversal.advance(Event::Read("/x.md".to_string(), None)), Action::Done);
    assert_eq!(traversal.reached(), strings(&["/x.md"]));
}

#[test]
fn entry_points_are_the_index_files() {
    let entries = strings(&["/r/docs", "/r/docs/a.md", "/r/docs/README.md", "/r/docs/sub/README.md"]);
    assert_eq!(
        doc_entry_points("/r", &entries),
        strings(&["/r/README.md", "/r/docs/README.md", "/r/docs/sub/README.md"])
    );
    assert_eq!(doc_entry_points("../..", &vec![]), strings(&["../../README.md"]));
}

#[test]
fn markdown_files_are_listed_in_path_order() {
    let paths = strings(&[
        "docs/b.md",
        "docs/a.txt",
        "docs/a/z.md",
        "docs/a.md",
        "docs/.md",
        "docs/A.MD",
        "docs/a-b.md",
        "docs",
        "docs/dir.md",
        "docs/dir.md/in.md",
    ]);
    let entries: Vec<Entry> = paths
        .into_iter()
        .map(|path| {
            let is_file = path != "docs" && path != "docs/dir.md";
            Entry { path, is_file }
        })
        .collect();
    // A directory sorts by its own name, so `a/z.md` comes before `a-b.md`.
    assert_eq!(
        find_all_docs_markdown(&entries),
        strings(&["docs/a/z.md", "docs/a-b.md", "docs/a.md", "docs/b.md", "docs/dir.md/in.md"])
    );
}

#[test]
fn unreached_documents_are_orphans() {
    let docs = vec![doc("/r/docs/a.md"), doc("/r/docs/lost.md"), doc("/r/docs/sub/d.md")];
    let reached = reach(&["/r/README.md", "/r/docs/sub/README.md"]);
    assert_eq!(find_orphaned_docs(&docs, &reached), strings(&["/r/docs/lost.md"]));
    let findings = check_orphaned_docs("/r", &docs, &reached, &CheckConfig::default());
    assert_eq!(findings.len(), 1);
    assert_eq!(findings[0].severity, Severity::Warn);
    assert_eq!(
        findings[0].message,
        "docs/lost.md: orphaned doc - not reachable from README.md or any docs index file"
    );
}

#[test]
fn orphans_are_looked_up_by_canonical_path() {
    let docs = vec![
        DocFile { path: "docs/x.md".to_string(), canonical: "/r/docs/x.md".to_string() },
        DocFile { path: "docs/y.md".to_string(), canonical: "docs/y.md".to_string() },
    ];
    assert_eq!(
        find_orphaned_docs(&docs, &strings(&["/r/docs/x.md", "/r/docs/y.md"])),
        strings(&["docs/y.md"])
    );
    assert_eq!(normalize_path("docs/y.md", None), "docs/y.md");
    assert_eq!(normalize_path("docs/x.md", Some("/r/docs/x.md".to_string())), "/r/docs/x.md");
}

#[test]
fn orphan_rule_can_be_turned_off_and_made_strict() {
    let docs = vec![doc("/r/docs/lost.md")];
    let off = CheckConfig { check_orphaned_docs: false, ..CheckConfig::default() };
    assert!(check_orphaned_docs("/r", &docs, &vec![], &off).is_empty());
    let strict = CheckConfig { new_check_severity: Severity::Fail, ..CheckConfig::default() };
    assert_eq!(check_orphaned_docs("/r", &docs, &vec![], &strict)[0].severity, Severity::Fail);
    assert!(check_orphaned_docs("/r", &vec![], &vec![], &strict).is_empty());
}

#[test]
fn index_files_are_reached_without_a_link() {
    let entries = strings(&["/r/docs/sub/README.md", "/r/docs/sub/d.md"]);
    let points = doc_entry_points("/r", &entries);
    let points: Vec<&str> = points.iter().map(|p| p.as_str()).collect();
    let reached = reach(&points);
    assert!(reached.contains(&"/r/docs/sub/README.md".to_string()));
    assert!(reached.contains(&"/r/docs/sub/d.md".to_string()));
    assert!(!reached.contains(&"/r/docs/lost.md".to_string()));
}

#[test]
fn only_markdown_files_are_reached() {
    let mut traversal = Traversal::new(&strings(&["a.png", "b.Md"]));
    assert_eq!(traversal.advance(Event::Begin), Action::LookUp("a.png".to_string()));
    assert_eq!(
        traversal.advance(Event::Found(Some("/r/a.png".to_string()))),
        Action::LookUp("b.Md".to_string())
    );
    assert_eq!(
        traversal.advance(Event::Found(Some("/r/b.Md".to_string()))),
        Action::Read("/r/b.Md".to_string())
    );
    assert_eq!(traversal.reached(), strings(&["/r/b.Md"]));
}

#[test]
fn orphans_come_in_path_order() {
    let docs = vec![doc("docs/b.md"), doc("docs/a-b.md"), doc("docs/a/z.md")];
    assert_eq!(
        find_orphaned_docs(&docs, &vec![]),
        strings(&["docs/a/z.md", "docs/a-b.md", "docs/b.md"])
    );
}

#[test]
fn documents_that_lead_to_other_files_are_no_orphans() {
    let entries = strings(&["/r/docs/LICENSE.md", "/r/docs/README.md", "/r/docs/a/README.md"]);
    let lookup = |path: &str| match path {
        "/r/README.md" => Some("/r/README.md".to_string()),
        "/r/docs/README.md" => Some("/r/docs/index.txt".to_string()),
        "/r/docs/LICENSE.md" => Some("/r/LICENSE".to_string()),
        _ => None,
    };
    let mut traversal = Traversal::new(&doc_entry_points("/r", &entries));
    let mut action = traversal.advance(Event::Begin);
    while action != Action::Done {
        let event = match action {
            Action::LookUp(path) => Event::Found(lookup(&path)),
            Action::Read(file) => {
                assert_eq!(file, "/r/README.md");
                Event::Read(file, Some("[terms](docs/LICENSE.md)".to_string()))
            }
            Action::Done => Event::Begin,
        };
        action = traversal.advance(event);
    }
    assert_eq!(traversal.files(), strings(&["/r/README.md", "/r/docs/index.txt", "/r/LICENSE"]));
    assert_eq!(traversal.reached(), strings(&["/r/README.md"]));
    let docs: Vec<DocFile> = entries
        .iter()
        .map(|path| DocFile {
            path: path.clone(),
            canonical: normalize_path(path, lookup(path)),
        })
        .collect();
    assert_eq!(find_orphaned_docs(&docs, &traversal.files()), strings(&["/r/docs/a/README.md"]));
}

#[test]
fn entry_points_add_up() {
    let mut both = reach(&["/r/docs/lost.md", "/r/docs/sub/README.md", "/r/none.md"]);
    let mut again = reach(&["/r/docs/sub/README.md", "/r/docs/lost.md", "/r/docs/lost.md"]);
    let mut apart = reach(&["/r/docs/lost.md"]);
    apart.extend(reach(&["/r/docs/sub/README.md"]));
    both.sort();
    again.sort();
    apart.sort();
    assert_eq!(both, apart);
    assert_eq!(both, again);
}
