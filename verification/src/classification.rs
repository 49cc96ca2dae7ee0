//! Everything that a run reports can be classified.

use crate::baseline::unclassified_findings;
use crate::checks::{
    doc_text, error_variant_findings, event_variant_findings, field_findings, fn_findings,
    impl_findings, item_findings, items_findings, lowercase, named_field_findings, sections_missing,
    source_findings, unnamed_field_findings,
};
use crate::files::{lemma_sorted_files_hold, sort_files, TextFileView};
use crate::findings::{CheckConfig, FindingView};
use crate::identity::identity;
use crate::order::{lemma_sorted_holds, sort_paths};
use crate::orphans::{law_orphans_were_not_reached, orphan_findings, orphans, DocFileView};
use crate::paths::relative_path;
use crate::patterns::{run_char, Run};
use crate::recognition::{
    is_file, is_word, law_every_message_is_known, law_reported_sections_are_recognized,
};
use crate::references::{
    is_snake_case, known_functions, law_references_stand_in_their_line,
    law_stale_references_have_no_function, references, stale_findings, stale_references, StaleView,
};
use crate::report::contract_findings;
use crate::source::{parsed_items, AttrView, FieldListView, FnView, ItemView, MemberView};
use crate::text::{decimal, lemma_decimal_digits, lines};
use vstd::prelude::*;

verus! {

// ---------------------------------------------------------------------------
// Findings on sources
// ---------------------------------------------------------------------------

/// Every finding has an identity.
pub open spec fn are_classified(list: Seq<FindingView>) -> bool {
    forall|i: int| 0 <= i < list.len() ==> identity(#[trigger] list[i].message) is Some
}

/// The names of the members consist of word characters.
pub open spec fn are_word_members(members: Seq<MemberView>) -> bool {
    forall|i: int| 0 <= i < members.len() ==> is_word(#[trigger] members[i].name)
}

/// The names of the functions consist of word characters.
pub open spec fn are_word_functions(members: Seq<Option<FnView>>) -> bool {
    forall|i: int|
        0 <= i < members.len() && (#[trigger] members[i]) is Some ==> is_word(members[i]->0.name)
}

/// The names of the item and its members consist of word characters.
pub open spec fn has_word_names(item: ItemView) -> bool {
    match item {
        ItemView::Impl { members, .. } => are_word_functions(members),
        ItemView::Struct { name, fields, .. } => is_word(name) && (fields is Named
            ==> are_word_members(fields->Named_0)),
        ItemView::Enum { name, variants, .. } => is_word(name) && are_word_members(variants),
        ItemView::Other => true,
    }
}

/// The names of all items consist of word characters.
pub open spec fn have_word_names(items: Seq<ItemView>) -> bool {
    forall|i: int| 0 <= i < items.len() ==> has_word_names(#[trigger] items[i])
}

/// The names of items are word characters where they are ASCII identifiers
/// that are not raw.
pub proof fn law_ascii_identifiers_are_words(name: Seq<char>)
    requires
        name.len() > 0,
        forall|i: int|
            0 <= i < name.len() ==> {
                let c = #[trigger] name[i];
                'a' <= c <= 'z' || 'A' <= c <= 'Z' || '0' <= c <= '9' || c == '_'
            },
    ensures
        is_word(name),
{
    assert forall|i: int| 0 <= i < name.len() implies run_char(Run::Word, #[trigger] name[i]) by {}
}

/// Two lists of which every finding has an identity.
proof fn lemma_classified_add(a: Seq<FindingView>, b: Seq<FindingView>)
    requires
        are_classified(a),
        are_classified(b),
    ensures
        are_classified(a + b),
{
    let all = a + b;
    assert forall|i: int| 0 <= i < all.len() implies identity(#[trigger] all[i].message) is Some by {
        if i < a.len() {
            assert(all[i].message == a[i].message);
        } else {
            assert(all[i].message == b[i - a.len()].message);
        }
    }
}

proof fn lemma_fn_classified(func: FnView, file: Seq<char>, config: CheckConfig)
    requires
        is_file(file),
        is_word(func.name),
    ensures
        are_classified(fn_findings(func, file, config)),
{
    let doc = lowercase(doc_text(func.attrs));
    lemma_decimal_digits(func.line);
    law_every_message_is_known(file, decimal(func.line), 0, func.name, func.name);
    if sections_missing(doc, func.inputs > 0, func.returns_value).len() > 0 {
        law_reported_sections_are_recognized(
            file,
            func.line,
            func.name,
            doc,
            func.inputs > 0,
            func.returns_value,
        );
    }
}

proof fn lemma_impl_classified(
    members: Seq<Option<FnView>>,
    file: Seq<char>,
    config: CheckConfig,
)
    requires
        is_file(file),
        are_word_functions(members),
    ensures
        are_classified(impl_findings(members, file, config)),
    decreases members.len(),
{
    if members.len() > 0 {
        let front = members.drop_last();
        assert forall|i: int| 0 <= i < front.len() && (#[trigger] front[i]) is Some implies is_word(
            front[i]->0.name,
        ) by {
            assert(front[i] == members[i]);
        }
        lemma_impl_classified(front, file, config);
        assert(members[members.len() - 1] == members.last());
        if members.last() is Some {
            let func = members.last()->0;
            lemma_fn_classified(func, file, config);
            lemma_classified_add(
                impl_findings(front, file, config),
                fn_findings(func, file, config),
            );
        }
    }
}

proof fn lemma_word_members_front(list: Seq<MemberView>)
    requires
        are_word_members(list),
        list.len() > 0,
    ensures
        are_word_members(list.drop_last()),
        is_word(list.last().name),
{
    let front = list.drop_last();
    assert(list[list.len() - 1].name == list.last().name);
    assert forall|i: int| 0 <= i < front.len() implies is_word(#[trigger] front[i].name) by {
        assert(front[i].name == list[i].name);
    }
}

proof fn lemma_named_fields_classified(
    list: Seq<MemberView>,
    name: Seq<char>,
    file: Seq<char>,
)
    requires
        is_file(file),
        is_word(name),
        are_word_members(list),
    ensures
        are_classified(named_field_findings(list, name, file)),
    decreases list.len(),
{
    if list.len() > 0 {
        let field = list.last();
        lemma_word_members_front(list);
        lemma_named_fields_classified(list.drop_last(), name, file);
        lemma_decimal_digits(field.line);
        law_every_message_is_known(file, decimal(field.line), 0, name, field.name);
    }
}

proof fn lemma_unnamed_fields_classified(
    list: Seq<Seq<AttrView>>,
    name: Seq<char>,
    file: Seq<char>,
)
    requires
        is_file(file),
        is_word(name),
    ensures
        are_classified(unnamed_field_findings(list, name, file)),
    decreases list.len(),
{
    if list.len() > 0 {
        let index = (list.len() - 1) as nat;
        lemma_unnamed_fields_classified(list.drop_last(), name, file);
        lemma_decimal_digits(index);
        law_every_message_is_known(file, decimal(index), index, name, name);
    }
}

proof fn lemma_variants_classified(
    list: Seq<MemberView>,
    name: Seq<char>,
    file: Seq<char>,
    config: CheckConfig,
)
    requires
        is_file(file),
        is_word(name),
        are_word_members(list),
    ensures
        are_classified(event_variant_findings(list, name, file)),
        are_classified(error_variant_findings(list, name, file, config.new_check_severity)),
    decreases list.len(),
{
    if list.len() > 0 {
        let variant = list.last();
        lemma_word_members_front(list);
        lemma_variants_classified(list.drop_last(), name, file, config);
        lemma_decimal_digits(variant.line);
        law_every_message_is_known(file, decimal(variant.line), 0, name, variant.name);
    }
}

proof fn lemma_item_classified(item: ItemView, file: Seq<char>, config: CheckConfig)
    requires
        is_file(file),
        has_word_names(item),
    ensures
        are_classified(item_findings(item, file, config)),
{
    match item {
        ItemView::Impl { attrs, members } => lemma_impl_classified(members, file, config),
        ItemView::Struct { attrs, name, fields } => {
            match fields {
                FieldListView::Named(list) => lemma_named_fields_classified(list, name, file),
                FieldListView::Unnamed(list) => lemma_unnamed_fields_classified(list, name, file),
                FieldListView::Unit => {},
            }
            assert(are_classified(field_findings(fields, name, file)));
        },
        ItemView::Enum { attrs, name, variants } => {
            lemma_variants_classified(variants, name, file, config);
        },
        ItemView::Other => {},
    }
}

/// Whatever is reported of the items of a file, under any configuration, has
/// an identity. The name of the file is not empty and on one line, and those
/// of the items consist of word characters.
pub proof fn law_findings_on_items_are_classified(
    items: Seq<ItemView>,
    file: Seq<char>,
    config: CheckConfig,
)
    requires
        is_file(file),
        have_word_names(items),
    ensures
        are_classified(items_findings(items, file, config)),
    decreases items.len(),
{
    if items.len() > 0 {
        let front = items.drop_last();
        assert(items[items.len() - 1] == items.last());
        assert forall|i: int| 0 <= i < front.len() implies has_word_names(#[trigger] front[i]) by {
            assert(front[i] == items[i]);
        }
        law_findings_on_items_are_classified(front, file, config);
        lemma_item_classified(items.last(), file, config);
        lemma_classified_add(
            items_findings(front, file, config),
            item_findings(items.last(), file, config),
        );
    }
}

/// A source text whose items have names of word characters, or that is not
/// valid Rust.
pub open spec fn is_word_source(content: Seq<char>) -> bool {
    parsed_items(content) is Some ==> have_word_names(parsed_items(content)->0)
}

/// Whatever is reported of a source text, under any configuration, has an
/// identity.
pub proof fn law_findings_on_sources_are_classified(
    content: Seq<char>,
    file: Seq<char>,
    config: CheckConfig,
)
    requires
        is_file(file),
        is_word_source(content),
    ensures
        are_classified(source_findings(content, file, config)),
{
    if parsed_items(content) is Some {
        law_findings_on_items_are_classified(parsed_items(content)->0, file, config);
    }
}

// ---------------------------------------------------------------------------
// Findings on documents
// ---------------------------------------------------------------------------

/// A path on one line of which something is left as seen from the root of the
/// repository.
pub open spec fn is_document_path(repo_root: Seq<char>, path: Seq<char>) -> bool {
    !path.contains('\n') && relative_path(repo_root, path).len() > 0
}

/// Seen from the root of the repository such a path can be named.
proof fn lemma_document_file(repo_root: Seq<char>, path: Seq<char>)
    requires
        is_document_path(repo_root, path),
    ensures
        is_file(relative_path(repo_root, path)),
{
    let file = relative_path(repo_root, path);
    let rest = path.subrange(repo_root.len() as int, path.len() as int);
    assert forall|i: int| 0 <= i < path.len() implies #[trigger] path[i] != '\n' by {
        assert(path.contains(path[i]));
    }
    assert forall|i: int| 0 <= i < file.len() implies run_char(
        Run::AnyPlus,
        #[trigger] file[i],
    ) by {}
}

/// Every finding on an orphaned document has an identity.
pub proof fn law_findings_on_orphans_are_classified(
    repo_root: Seq<char>,
    docs: Seq<DocFileView>,
    reached: Seq<Seq<char>>,
    config: CheckConfig,
)
    requires
        forall|i: int|
            0 <= i < docs.len() ==> is_document_path(repo_root, #[trigger] docs[i].path),
    ensures
        are_classified(orphan_findings(repo_root, sort_paths(orphans(docs, reached)), config)),
{
    let paths = sort_paths(orphans(docs, reached));
    let list = orphan_findings(repo_root, paths, config);
    assert forall|i: int| 0 <= i < list.len() implies identity(
        #[trigger] list[i].message,
    ) is Some by {
        let path = paths[i];
        assert(paths.contains(path));
        lemma_sorted_holds(orphans(docs, reached), path);
        law_orphans_were_not_reached(docs, reached, path);
        let k = choose|k: int|
            0 <= k < docs.len() && #[trigger] docs[k].path == path && !reached.contains(
                docs[k].canonical,
            );
        assert(is_document_path(repo_root, docs[k].path));
        lemma_document_file(repo_root, path);
        lemma_decimal_digits(0);
        assert(is_word("a"@)) by {
            reveal_strlit("a");
        }
        law_every_message_is_known(relative_path(repo_root, path), decimal(0), 0, "a"@, "a"@);
    }
}

/// The name of a reference consists of word characters.
proof fn lemma_reference_is_word(text: Seq<char>, name: Seq<char>, line: nat)
    requires
        references(text).contains((name, line)),
    ensures
        is_word(name),
{
    let all = lines(text);
    let i = choose|i: int| 0 <= i < references(text).len() && references(text)[i] == (name, line);
    law_references_stand_in_their_line(all, i);
    assert(is_snake_case(name));
    assert forall|k: int| 0 <= k < name.len() implies run_char(Run::Word, #[trigger] name[k]) by {}
}

/// Every finding on a stale reference has an identity.
pub proof fn law_findings_on_references_are_classified(
    repo_root: Seq<char>,
    docs: Seq<TextFileView>,
    sources: Seq<Seq<char>>,
    config: CheckConfig,
)
    requires
        forall|i: int|
            0 <= i < docs.len() ==> is_document_path(repo_root, #[trigger] docs[i].path),
    ensures
        are_classified(
            stale_findings(
                repo_root,
                stale_references(sort_files(docs), known_functions(sources)),
                config,
            ),
        ),
{
    let sorted = sort_files(docs);
    let found = stale_references(sorted, known_functions(sources));
    let list = stale_findings(repo_root, found, config);
    assert forall|i: int| 0 <= i < list.len() implies identity(
        #[trigger] list[i].message,
    ) is Some by {
        let stale: StaleView = found[i];
        assert(found.contains(stale));
        law_stale_references_have_no_function(sorted, sources, stale);
        let d = choose|d: int|
            0 <= d < sorted.len() && #[trigger] sorted[d].path == stale.path && references(
                sorted[d].text,
            ).contains((stale.name, stale.line));
        assert(sorted.contains(sorted[d]));
        lemma_sorted_files_hold(docs, sorted[d]);
        let k = choose|k: int| 0 <= k < docs.len() && docs[k] == sorted[d];
        assert(is_document_path(repo_root, docs[k].path));
        lemma_document_file(repo_root, stale.path);
        lemma_reference_is_word(sorted[d].text, stale.name, stale.line);
        lemma_decimal_digits(stale.line);
        law_every_message_is_known(
            relative_path(repo_root, stale.path),
            decimal(stale.line),
            0,
            stale.name,
            stale.name,
        );
    }
}

// ---------------------------------------------------------------------------
// A whole run
// ---------------------------------------------------------------------------

proof fn lemma_contracts_classified(files: Seq<TextFileView>, config: CheckConfig)
    requires
        forall|i: int|
            0 <= i < files.len() ==> is_file((#[trigger] files[i]).path) && is_word_source(
                files[i].text,
            ),
    ensures
        are_classified(contract_findings(files, config)),
    decreases files.len(),
{
    if files.len() > 0 {
        let front = files.drop_last();
        assert(files[files.len() - 1] == files.last());
        assert forall|i: int| 0 <= i < front.len() implies is_file((#[trigger] front[i]).path)
            && is_word_source(front[i].text) by {
            assert(front[i] == files[i]);
        }
        lemma_contracts_classified(front, config);
        law_findings_on_sources_are_classified(files.last().text, files.last().path, config);
        lemma_classified_add(
            contract_findings(front, config),
            source_findings(files.last().text, files.last().path, config),
        );
    }
}

/// Nothing is left over where every finding has an identity.
proof fn lemma_none_unclassified(list: Seq<FindingView>)
    requires
        are_classified(list),
    ensures
        unclassified_findings(list) == Seq::<FindingView>::empty(),
    decreases list.len(),
{
    if list.len() > 0 {
        let front = list.drop_last();
        assert(list[list.len() - 1].message == list.last().message);
        assert forall|i: int| 0 <= i < front.len() implies identity(
            #[trigger] front[i].message,
        ) is Some by {
            assert(front[i].message == list[i].message);
        }
        lemma_none_unclassified(front);
    }
}

/// All that a run reports can be classified: every finding on the contracts,
/// on orphaned documents and on stale references has an identity, so that
/// none stays out of a baseline made from them.
pub proof fn law_findings_of_a_run_are_classified(
    contracts: Seq<TextFileView>,
    repo_root: Seq<char>,
    docs: Seq<DocFileView>,
    reached: Seq<Seq<char>>,
    texts: Seq<TextFileView>,
    sources: Seq<Seq<char>>,
    config: CheckConfig,
)
    requires
        forall|i: int|
            0 <= i < contracts.len() ==> is_file((#[trigger] contracts[i]).path)
                && is_word_source(contracts[i].text),
        forall|i: int|
            0 <= i < docs.len() ==> is_document_path(repo_root, #[trigger] docs[i].path),
        forall|i: int|
            0 <= i < texts.len() ==> is_document_path(repo_root, #[trigger] texts[i].path),
    ensures
        are_classified(
            contract_findings(sort_files(contracts), config) + orphan_findings(
                repo_root,
                sort_paths(orphans(docs, reached)),
                config,
            ) + stale_findings(
                repo_root,
                stale_references(sort_files(texts), known_functions(sources)),
                config,
            ),
        ),
        unclassified_findings(
            contract_findings(sort_files(contracts), config) + orphan_findings(
                repo_root,
                sort_paths(orphans(docs, reached)),
                config,
            ) + stale_findings(
                repo_root,
                stale_references(sort_files(texts), known_functions(sources)),
                config,
            ),
        ) == Seq::<FindingView>::empty(),
{
    let sorted = sort_files(contracts);
    assert forall|i: int| 0 <= i < sorted.len() implies is_file((#[trigger] sorted[i]).path)
        && is_word_source(sorted[i].text) by {
        assert(sorted.contains(sorted[i]));
        lemma_sorted_files_hold(contracts, sorted[i]);
        let k = choose|k: int| 0 <= k < contracts.len() && contracts[k] == sorted[i];
        assert(is_file(contracts[k].path));
    }
    let first = contract_findings(sorted, config);
    let second = orphan_findings(repo_root, sort_paths(orphans(docs, reached)), config);
    let third = stale_findings(
        repo_root,
        stale_references(sort_files(texts), known_functions(sources)),
        config,
    );
    lemma_contracts_classified(sorted, config);
    law_findings_on_orphans_are_classified(repo_root, docs, reached, config);
    law_findings_on_references_are_classified(repo_root, texts, sources, config);
    lemma_classified_add(first, second);
    lemma_classified_add(first + second, third);
    lemma_none_unclassified(first + second + third);
}

} // verus!
