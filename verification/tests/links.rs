use doc_checker::links::linked_paths;
use doc_checker::{
    extract_markdown_link_targets, is_external_or_anchor_link, resolve_relative_link,
};

#[test]
fn test_extract_markdown_link_targets_basic() {
    let content = "See [Architecture](./architecture.md) and [API](api/README.md).";
    let targets = extract_markdown_link_targets(content);
    assert_eq!(targets, vec!["./architecture.md", "api/README.md"]);
}

#[test]
fn test_extract_markdown_link_targets_ignores_unclosed() {
    // A dangling "](" with no closing paren must not panic or hang.
    let content = "broken link [text](";
    let targets = extract_markdown_link_targets(content);
    assert!(targets.is_empty());
}

#[test]
fn test_is_external_or_anchor_link() {
    assert!(is_external_or_anchor_link("#section"));
    assert!(is_external_or_anchor_link("https://example.com"));
    assert!(is_external_or_anchor_link("http://example.com"));
    assert!(is_external_or_anchor_link("mailto:a@b.com"));
    assert!(is_external_or_anchor_link("file:///abs/path.md"));
    assert!(is_external_or_anchor_link(""));
    assert!(!is_external_or_anchor_link("./relative.md"));
    assert!(!is_external_or_anchor_link("../up/relative.md"));
}

#[test]
fn test_resolve_relative_link_strips_fragment() {
    let resolved = resolve_relative_link("/repo/docs", "architecture.md#overview").unwrap();
    assert_eq!(resolved, "/repo/docs/architecture.md");
}

#[test]
fn test_resolve_relative_link_empty_target_is_none() {
    assert!(resolve_relative_link("/repo/docs", "#only-anchor").is_none());
    assert!(resolve_relative_link("/repo/docs", "").is_none());
}

#[test]
fn targets_are_trimmed_and_blank_ones_left_out() {
    assert_eq!(
        extract_markdown_link_targets("[a]( x.md\t) [b](  ) [c]() [d](y.md)"),
        vec!["x.md", "y.md"]
    );
}

#[test]
fn search_goes_on_behind_the_bracket() {
    // The inner `](` belongs to the first target.
    assert_eq!(extract_markdown_link_targets("[a](b[c](d) e)"), vec!["b[c](d"]);
    assert_eq!(extract_markdown_link_targets("[é](ä.md)[x](é.md)"), vec!["ä.md", "é.md"]);
    assert!(extract_markdown_link_targets("a ] ( b )").is_empty());
}

#[test]
fn more_external_links() {
    assert!(is_external_or_anchor_link("  https://example.com  "));
    assert!(is_external_or_anchor_link("ftp://example.com"));
    assert!(is_external_or_anchor_link(" \t"));
    assert!(!is_external_or_anchor_link("httpx.md"));
}

#[test]
fn absolute_targets_and_blanks_resolve() {
    assert_eq!(resolve_relative_link("/repo/docs", " /x.md #y").unwrap(), "/x.md");
    assert_eq!(resolve_relative_link("docs/", "a.md").unwrap(), "docs/a.md");
    assert_eq!(resolve_relative_link("", "a.md").unwrap(), "a.md");
    assert!(resolve_relative_link("docs", "  #y").is_none());
}

#[test]
fn only_local_links_are_followed() {
    let content = "[a](x.md#top) [b](https://e.com) [c](#here) [d](../y.md)";
    assert_eq!(linked_paths("/r/docs", content), vec!["/r/docs/x.md", "/r/docs/../y.md"]);
}
