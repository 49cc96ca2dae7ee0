//! Stable identities of finding messages.
//!
//! An identity names a finding by its file, its rule and the item it is
//! about, and leaves the line number out, so that it survives edits
//! elsewhere in the file. A message that no rule recognizes has none.

use crate::patterns::{
    anchored_syntax, are_group_texts, captures, group_text, is_plain, lemma_whole_match_unique,
    matches_whole, opt_views, syntax, whole_match, Piece, Run, ERROR_VARIANT, EVENT_FIELD,
    EVENT_UNNAMED_FIELD, EVENT_VARIANT, FN_MISSING_SECTIONS, FN_UNDOCUMENTED, ORPHANED_DOC,
    STALE_REF,
};
use crate::text::{
    matches_at, opt_view, replace_char, starts_with, text_of, to_chars, views, with_char_replaced,
};
use vstd::prelude::*;
use vstd::string::*;

verus! {

/// A rule whose findings can be recognized by their message.
#[derive(Clone, Copy, Debug, PartialEq, Eq, Structural)]
pub enum Rule {
    FnMissingSections,
    FnUndocumented,
    EventField,
    EventUnnamedField,
    EventVariant,
    ErrorVariant,
    OrphanedDoc,
    StaleRef,
}

/// The expression that recognizes the messages of a rule.
pub open spec fn rule_pattern(rule: Rule) -> Seq<char> {
    match rule {
        Rule::FnMissingSections => FN_MISSING_SECTIONS@,
        Rule::FnUndocumented => FN_UNDOCUMENTED@,
        Rule::EventField => EVENT_FIELD@,
        Rule::EventUnnamedField => EVENT_UNNAMED_FIELD@,
        Rule::EventVariant => EVENT_VARIANT@,
        Rule::ErrorVariant => ERROR_VARIANT@,
        Rule::OrphanedDoc => ORPHANED_DOC@,
        Rule::StaleRef => STALE_REF@,
    }
}

/// The name of a rule in an identity.
pub open spec fn rule_key(rule: Rule) -> Seq<char> {
    match rule {
        Rule::FnMissingSections => "fn-missing-sections"@,
        Rule::FnUndocumented => "fn-undocumented"@,
        Rule::EventField => "event-field"@,
        Rule::EventUnnamedField => "event-unnamed-field"@,
        Rule::EventVariant => "event-variant"@,
        Rule::ErrorVariant => "error-variant"@,
        Rule::OrphanedDoc => "orphaned-doc"@,
        Rule::StaleRef => "stale-ref"@,
    }
}

/// The pieces of the expression of a rule.
pub open spec fn rule_pieces(rule: Rule) -> Seq<Piece> {
    match rule {
        Rule::FnMissingSections => seq![
            Piece::Group("file"@, Run::AnyPlus),
            Piece::Literal(":"@),
            Piece::Group("line"@, Run::Digits),
            Piece::Literal(": fn "@),
            Piece::Group("item_a"@, Run::Word),
            Piece::Literal(" missing "@),
            Piece::Plain(Run::AnyPlus),
        ],
        Rule::FnUndocumented => seq![
            Piece::Group("file"@, Run::AnyPlus),
            Piece::Literal(":"@),
            Piece::Group("line"@, Run::Digits),
            Piece::Literal(": fn "@),
            Piece::Group("item_a"@, Run::Word),
            Piece::Literal(" has no doc comment at all"@),
        ],
        Rule::EventField => seq![
            Piece::Group("file"@, Run::AnyPlus),
            Piece::Literal(":"@),
            Piece::Group("line"@, Run::Digits),
            Piece::Literal(": struct "@),
            Piece::Group("item_a"@, Run::Word),
            Piece::Literal(" missing docs for field "@),
            Piece::Group("item_b"@, Run::Word),
        ],
        Rule::EventUnnamedField => seq![
            Piece::Group("file"@, Run::AnyPlus),
            Piece::Literal(": struct "@),
            Piece::Group("item_a"@, Run::Word),
            Piece::Literal(" missing docs for unnamed field "@),
            Piece::Group("item_b"@, Run::Digits),
        ],
        Rule::EventVariant => seq![
            Piece::Group("file"@, Run::AnyPlus),
            Piece::Literal(":"@),
            Piece::Group("line"@, Run::Digits),
            Piece::Literal(": enum "@),
            Piece::Group("item_a"@, Run::Word),
            Piece::Literal(" missing docs for variant "@),
            Piece::Group("item_b"@, Run::Word),
        ],
        Rule::ErrorVariant => seq![
            Piece::Group("file"@, Run::AnyPlus),
            Piece::Literal(":"@),
            Piece::Group("line"@, Run::Digits),
            Piece::Literal(": error enum "@),
            Piece::Group("item_a"@, Run::Word),
            Piece::Literal(" variant "@),
            Piece::Group("item_b"@, Run::Word),
            Piece::Literal(" has no doc comment"@),
        ],
        Rule::OrphanedDoc => seq![
            Piece::Group("file"@, Run::AnyPlus),
            Piece::Literal(": orphaned doc - "@),
            Piece::Plain(Run::AnyStar),
        ],
        Rule::StaleRef => seq![
            Piece::Group("file"@, Run::AnyPlus),
            Piece::Literal(":"@),
            Piece::Group("line"@, Run::Digits),
            Piece::Literal(": stale doc reference to `"@),
            Piece::Group("item_a"@, Run::Word),
            Piece::Literal("` "@),
            Piece::Plain(Run::AnyStar),
        ],
    }
}

/// A path with `../` taken off its front as often as it stands there.
pub open spec fn strip_parents(path: Seq<char>) -> Seq<char>
    decreases path.len(),
{
    proof {
        reveal_strlit("../");
    }
    if starts_with(path, "../"@) {
        strip_parents(path.subrange(3, path.len() as int))
    } else {
        path
    }
}

/// The stable form of the file part of a message: forward slashes, and no
/// leading `../`.
pub open spec fn normalize_file(raw: Seq<char>) -> Seq<char> {
    strip_parents(replace_char(raw, '\\', '/'))
}

/// How the expression of `rule` matches `message`, if it does.
pub open spec fn captured(rule: Rule, message: Seq<char>) -> Option<Seq<int>> {
    if exists|cuts: Seq<int>| whole_match(rule_pieces(rule), message, cuts) {
        Some(choose|cuts: Seq<int>| whole_match(rule_pieces(rule), message, cuts))
    } else {
        None
    }
}

/// What a group holds of a match; nothing where the rule has no such group.
pub open spec fn held(rule: Rule, message: Seq<char>, cuts: Seq<int>, name: Seq<char>) -> Seq<char> {
    match group_text(rule_pieces(rule), message, cuts, name) {
        Some(text) => text,
        None => Seq::empty(),
    }
}

/// The item that a message is about.
pub open spec fn item_text(rule: Rule, file: Seq<char>, item_a: Seq<char>, item_b: Seq<char>) -> Seq<char> {
    match rule {
        Rule::FnMissingSections | Rule::FnUndocumented | Rule::StaleRef => item_a,
        Rule::EventField | Rule::EventUnnamedField | Rule::EventVariant | Rule::ErrorVariant => item_a
            + "::"@ + item_b,
        Rule::OrphanedDoc => file,
    }
}

/// `<file>|<rule>|<item>`
pub open spec fn identity_text(rule: Rule, raw_file: Seq<char>, item_a: Seq<char>, item_b: Seq<char>) -> Seq<char> {
    let file = normalize_file(raw_file);
    file + "|"@ + rule_key(rule) + "|"@ + item_text(rule, file, item_a, item_b)
}

/// The identity that `rule` gives to `message`, if it recognizes it.
pub open spec fn rule_identity(rule: Rule, message: Seq<char>) -> Option<Seq<char>> {
    match captured(rule, message) {
        Some(cuts) => Some(
            identity_text(
                rule,
                held(rule, message, cuts, "file"@),
                held(rule, message, cuts, "item_a"@),
                held(rule, message, cuts, "item_b"@),
            ),
        ),
        None => None,
    }
}

/// The rules in the order in which they are tried.
pub open spec fn all_rules() -> Seq<Rule> {
    seq![
        Rule::FnMissingSections,
        Rule::FnUndocumented,
        Rule::EventField,
        Rule::EventUnnamedField,
        Rule::EventVariant,
        Rule::ErrorVariant,
        Rule::OrphanedDoc,
        Rule::StaleRef,
    ]
}

/// The identity that the first of `rules` to recognize `message` gives it.
pub open spec fn first_identity(rules: Seq<Rule>, message: Seq<char>) -> Option<Seq<char>>
    decreases rules.len(),
{
    if rules.len() == 0 {
        None
    } else {
        match rule_identity(rules[0], message) {
            Some(identity) => Some(identity),
            None => first_identity(rules.drop_first(), message),
        }
    }
}

/// The identity of a message, if a rule recognizes it.
pub open spec fn identity(message: Seq<char>) -> Option<Seq<char>> {
    first_identity(all_rules(), message)
}

proof fn lemma_syntax_words()
    ensures
        "^"@ =~= seq!['^'],
        "$"@ =~= seq!['$'],
        "("@ =~= seq!['('],
        ")"@ =~= seq![')'],
        ">"@ =~= seq!['>'],
        "(?P<"@ =~= seq!['(', '?', 'P', '<'],
        ".+"@ =~= seq!['.', '+'],
        ".*"@ =~= seq!['.', '*'],
        r"\d+"@ =~= seq!['\\', 'd', '+'],
        r"\w+"@ =~= seq!['\\', 'w', '+'],
        "file"@ =~= seq!['f', 'i', 'l', 'e'],
        "line"@ =~= seq!['l', 'i', 'n', 'e'],
        "item_a"@ =~= seq!['i', 't', 'e', 'm', '_', 'a'],
        "item_b"@ =~= seq!['i', 't', 'e', 'm', '_', 'b'],
        ":"@ =~= seq![':'],
{
    reveal_strlit("^");
    reveal_strlit("$");
    reveal_strlit("(");
    reveal_strlit(")");
    reveal_strlit(">");
    reveal_strlit("(?P<");
    reveal_strlit(".+");
    reveal_strlit(".*");
    reveal_strlit(r"\d+");
    reveal_strlit(r"\w+");
    reveal_strlit("file");
    reveal_strlit("line");
    reveal_strlit("item_a");
    reveal_strlit("item_b");
    reveal_strlit(":");
}

proof fn lemma_syntax_fn_missing_sections()
    ensures
        anchored_syntax(rule_pieces(Rule::FnMissingSections)) == FN_MISSING_SECTIONS@,
        is_plain(rule_pieces(Rule::FnMissingSections)),
{
    lemma_syntax_words();
    reveal_with_fuel(syntax, 9);
    reveal_strlit(": fn ");
    reveal_strlit(" missing ");
    reveal_strlit(
        r"^(?P<file>.+):(?P<line>\d+): fn (?P<item_a>\w+) missing .+$",
    );
    assert(anchored_syntax(rule_pieces(Rule::FnMissingSections)) =~= FN_MISSING_SECTIONS@);
}

proof fn lemma_syntax_fn_undocumented()
    ensures
        anchored_syntax(rule_pieces(Rule::FnUndocumented)) == FN_UNDOCUMENTED@,
        is_plain(rule_pieces(Rule::FnUndocumented)),
{
    lemma_syntax_words();
    reveal_with_fuel(syntax, 9);
    reveal_strlit(": fn ");
    reveal_strlit(" has no doc comment at all");
    reveal_strlit(
        r"^(?P<file>.+):(?P<line>\d+): fn (?P<item_a>\w+) has no doc comment at all$",
    );
    assert(anchored_syntax(rule_pieces(Rule::FnUndocumented)) =~= FN_UNDOCUMENTED@);
}

proof fn lemma_syntax_event_field()
    ensures
        anchored_syntax(rule_pieces(Rule::EventField)) == EVENT_FIELD@,
        is_plain(rule_pieces(Rule::EventField)),
{
    lemma_syntax_words();
    reveal_with_fuel(syntax, 9);
    reveal_strlit(": struct ");
    reveal_strlit(" missing docs for field ");
    reveal_strlit(
        r"^(?P<file>.+):(?P<line>\d+): struct (?P<item_a>\w+) missing docs for field (?P<item_b>\w+)$",
    );
    assert(anchored_syntax(rule_pieces(Rule::EventField)) =~= EVENT_FIELD@);
}

proof fn lemma_syntax_event_unnamed_field()
    ensures
        anchored_syntax(rule_pieces(Rule::EventUnnamedField)) == EVENT_UNNAMED_FIELD@,
        is_plain(rule_pieces(Rule::EventUnnamedField)),
{
    lemma_syntax_words();
    reveal_with_fuel(syntax, 9);
    reveal_strlit(": struct ");
    reveal_strlit(" missing docs for unnamed field ");
    reveal_strlit(
        r"^(?P<file>.+): struct (?P<item_a>\w+) missing docs for unnamed field (?P<item_b>\d+)$",
    );
    assert(anchored_syntax(rule_pieces(Rule::EventUnnamedField)) =~= EVENT_UNNAMED_FIELD@);
}

proof fn lemma_syntax_event_variant()
    ensures
        anchored_syntax(rule_pieces(Rule::EventVariant)) == EVENT_VARIANT@,
        is_plain(rule_pieces(Rule::EventVariant)),
{
    lemma_syntax_words();
    reveal_with_fuel(syntax, 9);
    reveal_strlit(": enum ");
    reveal_strlit(" missing docs for variant ");
    reveal_strlit(
        r"^(?P<file>.+):(?P<line>\d+): enum (?P<item_a>\w+) missing docs for variant (?P<item_b>\w+)$",
    );
    assert(anchored_syntax(rule_pieces(Rule::EventVariant)) =~= EVENT_VARIANT@);
}

proof fn lemma_syntax_error_variant()
    ensures
        anchored_syntax(rule_pieces(Rule::ErrorVariant)) == ERROR_VARIANT@,
        is_plain(rule_pieces(Rule::ErrorVariant)),
{
    lemma_syntax_words();
    reveal_with_fuel(syntax, 9);
    reveal_strlit(": error enum ");
    reveal_strlit(" variant ");
    reveal_strlit(" has no doc comment");
    reveal_strlit(
        r"^(?P<file>.+):(?P<line>\d+): error enum (?P<item_a>\w+) variant (?P<item_b>\w+) has no doc comment$",
    );
    assert(anchored_syntax(rule_pieces(Rule::ErrorVariant)) =~= ERROR_VARIANT@);
}

proof fn lemma_syntax_orphaned_doc()
    ensures
        anchored_syntax(rule_pieces(Rule::OrphanedDoc)) == ORPHANED_DOC@,
        is_plain(rule_pieces(Rule::OrphanedDoc)),
{
    lemma_syntax_words();
    reveal_with_fuel(syntax, 9);
    reveal_strlit(": orphaned doc - ");
    reveal_strlit(
        r"^(?P<file>.+): orphaned doc - .*$",
    );
    assert(anchored_syntax(rule_pieces(Rule::OrphanedDoc)) =~= ORPHANED_DOC@);
}

proof fn lemma_syntax_stale_ref()
    ensures
        anchored_syntax(rule_pieces(Rule::StaleRef)) == STALE_REF@,
        is_plain(rule_pieces(Rule::StaleRef)),
{
    lemma_syntax_words();
    reveal_with_fuel(syntax, 9);
    reveal_strlit(": stale doc reference to `");
    reveal_strlit("` ");
    reveal_strlit(
        r"^(?P<file>.+):(?P<line>\d+): stale doc reference to `(?P<item_a>\w+)` .*$",
    );
    assert(anchored_syntax(rule_pieces(Rule::StaleRef)) =~= STALE_REF@);
}

/// The pieces of a rule are what its expression says.
pub proof fn lemma_rule_syntax(rule: Rule)
    ensures
        anchored_syntax(rule_pieces(rule)) == rule_pattern(rule),
        is_plain(rule_pieces(rule)),
{
    match rule {
        Rule::FnMissingSections => lemma_syntax_fn_missing_sections(),
        Rule::FnUndocumented => lemma_syntax_fn_undocumented(),
        Rule::EventField => lemma_syntax_event_field(),
        Rule::EventUnnamedField => lemma_syntax_event_unnamed_field(),
        Rule::EventVariant => lemma_syntax_event_variant(),
        Rule::ErrorVariant => lemma_syntax_error_variant(),
        Rule::OrphanedDoc => lemma_syntax_orphaned_doc(),
        Rule::StaleRef => lemma_syntax_stale_ref(),
    }
}

impl Rule {
    /// The expression that recognizes the messages of this rule.
    pub fn pattern(self) -> (pattern: &'static str)
        ensures
            pattern@ == rule_pattern(self),
    {
        match self {
            Rule::FnMissingSections => FN_MISSING_SECTIONS,
            Rule::FnUndocumented => FN_UNDOCUMENTED,
            Rule::EventField => EVENT_FIELD,
            Rule::EventUnnamedField => EVENT_UNNAMED_FIELD,
            Rule::EventVariant => EVENT_VARIANT,
            Rule::ErrorVariant => ERROR_VARIANT,
            Rule::OrphanedDoc => ORPHANED_DOC,
            Rule::StaleRef => STALE_REF,
        }
    }

    /// The name of this rule in an identity.
    pub fn key(self) -> (key: &'static str)
        ensures
            key@ == rule_key(self),
    {
        match self {
            Rule::FnMissingSections => "fn-missing-sections",
            Rule::FnUndocumented => "fn-undocumented",
            Rule::EventField => "event-field",
            Rule::EventUnnamedField => "event-unnamed-field",
            Rule::EventVariant => "event-variant",
            Rule::ErrorVariant => "error-variant",
            Rule::OrphanedDoc => "orphaned-doc",
            Rule::StaleRef => "stale-ref",
        }
    }
}

/// The rules in the order in which they are tried. Order matters only where
/// messages could overlap.
pub fn classification_rules() -> (rules: Vec<Rule>)
    ensures
        rules@ == all_rules(),
{
    vec![
        Rule::FnMissingSections,
        Rule::FnUndocumented,
        Rule::EventField,
        Rule::EventUnnamedField,
        Rule::EventVariant,
        Rule::ErrorVariant,
        Rule::OrphanedDoc,
        Rule::StaleRef,
    ]
}

/// Normalizes the file part of a message to a stable form that is relative
/// to the repository root: forward slashes, no leading `../` segments.
pub fn normalize_file_part(raw: &str) -> (path: String)
    ensures
        path@ == normalize_file(raw@),
{
    let slashed: String = with_char_replaced(raw, '\\', '/');
    let chars: Vec<char> = to_chars(&slashed);
    let parent: Vec<char> = to_chars("../");
    let mut from: usize = 0;
    proof {
        reveal_strlit("../");
        assert(chars@.subrange(0, chars@.len() as int) =~= chars@);
    }
    while matches_at(&chars, &parent, from)
        invariant
            parent@ == "../"@,
            parent@.len() == 3,
            from <= chars@.len(),
            strip_parents(chars@) == strip_parents(
                chars@.subrange(from as int, chars@.len() as int),
            ),
        decreases chars@.len() - from,
    {
        proof {
            let rest = chars@.subrange(from as int, chars@.len() as int);
            assert(rest.subrange(0, 3) =~= chars@.subrange(from as int, from + 3));
            assert(rest.subrange(3, rest.len() as int) =~= chars@.subrange(
                from + 3,
                chars@.len() as int,
            ));
        }
        assert(from + 3 <= chars.len());
        from = from + 3;
    }
    proof {
        let rest = chars@.subrange(from as int, chars@.len() as int);
        if starts_with(rest, "../"@) {
            assert(rest.subrange(0, 3) =~= chars@.subrange(from as int, from + 3));
        }
    }
    text_of(&chars, from, chars.len())
}

/// The identity that `rule` gives to `message`, if it recognizes it.
pub fn identify(rule: Rule, message: &str) -> (found: Option<String>)
    ensures
        opt_view(found) == rule_identity(rule, message@),
{
    let names: Vec<String> = vec!["file".to_owned(), "item_a".to_owned(), "item_b".to_owned()];
    proof {
        lemma_rule_syntax(rule);
        assert(views(names@) =~= seq!["file"@, "item_a"@, "item_b"@]);
    }
    match captures(rule.pattern(), message, &names) {
        None => {
            assert(!matches_whole(rule_pieces(rule), message@));
            None
        },
        Some(groups) => {
            let ghost cuts = choose|cuts: Seq<int>| #[trigger]
                whole_match(rule_pieces(rule), message@, cuts) && opt_views(groups@) == views(
                    names@,
                ).map_values(
                    |name: Seq<char>| group_text(rule_pieces(rule), message@, cuts, name),
                );
            proof {
                assert(are_group_texts(
                    rule_pieces(rule),
                    message@,
                    views(names@),
                    opt_views(groups@),
                ));
                lemma_whole_match_unique(
                    rule_pieces(rule),
                    message@,
                    cuts,
                    captured(rule, message@)->0,
                );
                assert(opt_views(groups@).len() == groups@.len());
                assert(opt_views(groups@)[0] == group_text(
                    rule_pieces(rule),
                    message@,
                    cuts,
                    "file"@,
                ));
                assert(opt_views(groups@)[1] == group_text(
                    rule_pieces(rule),
                    message@,
                    cuts,
                    "item_a"@,
                ));
                assert(opt_views(groups@)[2] == group_text(
                    rule_pieces(rule),
                    message@,
                    cuts,
                    "item_b"@,
                ));
            }
            let file: String = normalize_file_part(&or_empty(&groups[0]));
            let item_a: String = or_empty(&groups[1]);
            let item_b: String = or_empty(&groups[2]);
            let mut identity: String = file.clone();
            identity.append("|");
            identity.append(rule.key());
            identity.append("|");
            match rule {
                Rule::FnMissingSections | Rule::FnUndocumented | Rule::StaleRef => {
                    identity.append(&item_a);
                },
                Rule::EventField
                | Rule::EventUnnamedField
                | Rule::EventVariant
                | Rule::ErrorVariant => {
                    identity.append(&item_a);
                    identity.append("::");
                    identity.append(&item_b);
                },
                Rule::OrphanedDoc => {
                    identity.append(&file);
                },
            }
            assert(identity@ =~= rule_identity(rule, message@)->0);
            Some(identity)
        },
    }
}

/// The text of a group, empty where there is none.
fn or_empty(group: &Option<String>) -> (text: String)
    ensures
        text@ == match opt_view(*group) {
            Some(t) => t,
            None => Seq::empty(),
        },
{
    match group {
        Some(text) => text.clone(),
        None => String::new(),
    }
}

/// Classifies a finding message into a stable identity
/// (`<file>|<rule>|<item>`) that can be compared against the baseline.
///
/// Returns `None` for unrecognized messages: those findings can never be
/// baselined.
pub fn finding_identity(message: &str) -> (found: Option<String>)
    ensures
        opt_view(found) == identity(message@),
{
    let rules: Vec<Rule> = classification_rules();
    let mut i: usize = 0;
    assert(rules@.skip(0) =~= rules@);
    while i < rules.len()
        invariant
            i <= rules@.len(),
            identity(message@) == first_identity(rules@.skip(i as int), message@),
        decreases rules@.len() - i,
    {
        assert(rules@.skip(i as int).drop_first() =~= rules@.skip(i + 1));
        let found: Option<String> = identify(rules[i], message);
        if found.is_some() {
            return found;
        }
        i = i + 1;
    }
    None
}

}
