//! Documentation rules for a tree of smart contracts.
//!
//! The rules look at contract sources, at the documents of the repository and
//! at the links and names in them. What they find can be held against a
//! committed baseline of findings that were there before.

pub mod baseline;
pub mod calendar;
pub mod checks;
pub mod classification;
pub mod cli;
pub mod files;
pub mod findings;
pub mod flags;
pub mod identity;
pub mod identity_form;
pub mod joining;
pub mod laws;
pub mod line_numbers;
pub mod links;
pub mod order;
pub mod orphans;
pub mod paths;
pub mod patterns;
pub mod recognition;
pub mod references;
pub mod report;
pub mod shape;
pub mod source;
pub mod text;
pub mod traversal;
pub mod violations;

pub use checks::{check_contract_docs, check_docs};
pub use findings::{CheckConfig, Finding, Severity};
pub use links::{
    extract_markdown_link_targets, is_external_or_anchor_link, resolve_relative_link,
};
pub use orphans::{check_orphaned_docs, find_all_docs_markdown, find_orphaned_docs};
pub use paths::normalize_path;
pub use references::{
    check_stale_doc_references, collect_contract_fns, extract_backtick_references,
    extract_contract_functions, find_stale_references,
};
