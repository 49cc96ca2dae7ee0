//! The form of identities.

use crate::identity::{
    identity, identity_text, item_text, normalize_file, rule_key, strip_parents, Rule,
};
use crate::text::{replace_char, starts_with};
use vstd::prelude::*;

verus! {

/// Stripping leaves no `../` in front and adds no character.
proof fn lemma_strip_parents(path: Seq<char>)
    ensures
        !starts_with(strip_parents(path), "../"@),
        forall|c: char| #[trigger] strip_parents(path).contains(c) ==> path.contains(c),
    decreases path.len(),
{
    reveal_strlit("../");
    if starts_with(path, "../"@) {
        let rest = path.subrange(3, path.len() as int);
        lemma_strip_parents(rest);
        assert forall|c: char| #[trigger] strip_parents(path).contains(c) implies path.contains(
            c,
        ) by {
            let i = choose|i: int| 0 <= i < rest.len() && rest[i] == c;
            assert(rest.contains(c));
            assert(path[i + 3] == c);
        }
    }
}

/// A file is named with forward slashes and from the root of the repository,
/// however it was written: backslashes and leading `../` make no difference,
/// and what is in this form stays as it is.
pub proof fn law_file_form_is_stable(raw: Seq<char>)
    ensures
        !normalize_file(raw).contains('\\'),
        !starts_with(normalize_file(raw), "../"@),
        normalize_file(normalize_file(raw)) == normalize_file(raw),
        normalize_file("../"@ + raw) == normalize_file(raw),
        normalize_file(replace_char(raw, '/', '\\')) == normalize_file(raw),
{
    reveal_strlit("../");
    let slashed = replace_char(raw, '\\', '/');
    let file = normalize_file(raw);
    lemma_strip_parents(slashed);
    assert(!slashed.contains('\\'));
    assert(replace_char(file, '\\', '/') =~= file) by {
        assert forall|i: int| 0 <= i < file.len() implies file[i] != '\\' by {
            assert(file.contains(file[i]));
        }
    }
    let deeper = replace_char("../"@ + raw, '\\', '/');
    assert(deeper =~= "../"@ + slashed);
    assert(deeper.subrange(0, 3) =~= "../"@);
    assert(deeper.subrange(3, deeper.len() as int) =~= slashed);
    assert(replace_char(replace_char(raw, '/', '\\'), '\\', '/') =~= slashed);
}

/// `../` as often as `n` says.
pub open spec fn parents(n: nat) -> Seq<char>
    decreases n,
{
    if n == 0 {
        Seq::empty()
    } else {
        "../"@ + parents((n - 1) as nat)
    }
}

/// `other` is `file` seen from `n` directories further down, with any of its
/// slashes written as backslashes.
pub open spec fn is_respelling(other: Seq<char>, file: Seq<char>, n: nat) -> bool {
    let path = parents(n) + file;
    &&& other.len() == path.len()
    &&& forall|i: int|
        0 <= i < path.len() ==> #[trigger] other[i] == path[i] || path[i] == '/' && other[i] == '\\'
}

/// Any number of `../` in front is stripped.
proof fn lemma_strip_all_parents(n: nat, path: Seq<char>)
    ensures
        strip_parents(parents(n) + path) == strip_parents(path),
    decreases n,
{
    if n == 0 {
        assert(parents(n) + path =~= path);
    } else {
        let rest = parents((n - 1) as nat) + path;
        let all = parents(n) + path;
        reveal_strlit("../");
        assert(all =~= "../"@ + rest);
        assert(all.subrange(0, 3) =~= "../"@);
        assert(all.subrange(3, all.len() as int) =~= rest);
        lemma_strip_all_parents((n - 1) as nat, path);
    }
}

/// Dots and slashes stand in front of a path seen from further down.
pub proof fn lemma_parents(n: nat)
    ensures
        forall|i: int|
            0 <= i < parents(n).len() ==> #[trigger] parents(n)[i] == '.' || parents(n)[i] == '/',
    decreases n,
{
    reveal_strlit("../");
    if n > 0 {
        let rest = parents((n - 1) as nat);
        lemma_parents((n - 1) as nat);
        assert forall|i: int| 0 <= i < parents(n).len() implies #[trigger] parents(n)[i] == '.'
            || parents(n)[i] == '/' by {
            if i >= 3 {
                assert(parents(n)[i] == rest[i - 3]);
            } else {
                assert(parents(n)[i] == "../"@[i]);
            }
        }
    }
}

/// However a path is spelled, as seen from any directory below the root of
/// the repository and with slashes of either kind, it has one form.
pub proof fn law_spellings_have_one_form(other: Seq<char>, file: Seq<char>, n: nat)
    requires
        is_respelling(other, file, n),
    ensures
        normalize_file(other) == normalize_file(file),
{
    let slashed = replace_char(file, '\\', '/');
    lemma_parents(n);
    assert(replace_char(other, '\\', '/') =~= parents(n) + slashed);
    lemma_strip_all_parents(n, slashed);
}

/// The text up to the first bar.
proof fn lemma_first_bar(a: Seq<char>, x: Seq<char>, b: Seq<char>, y: Seq<char>)
    requires
        a + "|"@ + x == b + "|"@ + y,
        !a.contains('|'),
        !b.contains('|'),
    ensures
        a == b,
        x == y,
{
    reveal_strlit("|");
    let whole = a + "|"@ + x;
    assert(whole[a.len() as int] == '|');
    assert((b + "|"@ + y)[b.len() as int] == '|');
    if a.len() < b.len() {
        assert(whole[a.len() as int] == b[a.len() as int]);
        assert(b.contains('|'));
    } else if b.len() < a.len() {
        assert(whole[b.len() as int] == a[b.len() as int]);
        assert(a.contains('|'));
    }
    assert(a =~= whole.subrange(0, a.len() as int));
    assert(b =~= whole.subrange(0, b.len() as int));
    assert(x =~= whole.subrange(a.len() as int + 1, whole.len() as int));
    assert(y =~= whole.subrange(b.len() as int + 1, whole.len() as int));
}

/// The names of the rules hold no bar and are different.
proof fn lemma_keys_differ(a: Rule, b: Rule)
    ensures
        !rule_key(a).contains('|'),
        rule_key(a) == rule_key(b) ==> a == b,
{
    reveal_strlit("fn-missing-sections");
    reveal_strlit("fn-undocumented");
    reveal_strlit("event-field");
    reveal_strlit("event-unnamed-field");
    reveal_strlit("event-variant");
    reveal_strlit("error-variant");
    reveal_strlit("orphaned-doc");
    reveal_strlit("stale-ref");
    assert("fn-missing-sections"@.len() == 19 && "event-unnamed-field"@.len() == 19);
    assert("fn-missing-sections"@[0] == 'f' && "event-unnamed-field"@[0] == 'e');
    assert("fn-undocumented"@.len() == 15);
    assert("event-field"@.len() == 11);
    assert("event-variant"@.len() == 13 && "error-variant"@.len() == 13);
    assert("event-variant"@[1] == 'v' && "error-variant"@[1] == 'r');
    assert("orphaned-doc"@.len() == 12);
    assert("stale-ref"@.len() == 9);
}

/// Findings of two rules, in two files or on two items have two identities,
/// as long as no file is named with a bar: a new violation never has the
/// identity of an old one.
pub proof fn law_identities_tell_findings_apart(
    rule: Rule,
    file: Seq<char>,
    item_a: Seq<char>,
    item_b: Seq<char>,
    other_rule: Rule,
    other_file: Seq<char>,
    other_a: Seq<char>,
    other_b: Seq<char>,
)
    requires
        !normalize_file(file).contains('|'),
        !normalize_file(other_file).contains('|'),
        identity_text(rule, file, item_a, item_b) == identity_text(
            other_rule,
            other_file,
            other_a,
            other_b,
        ),
    ensures
        rule == other_rule,
        normalize_file(file) == normalize_file(other_file),
        item_text(rule, normalize_file(file), item_a, item_b) == item_text(
            rule,
            normalize_file(file),
            other_a,
            other_b,
        ),
{
    let a = normalize_file(file);
    let b = normalize_file(other_file);
    let x = item_text(rule, a, item_a, item_b);
    let y = item_text(other_rule, b, other_a, other_b);
    assert(identity_text(rule, file, item_a, item_b) =~= a + "|"@ + (rule_key(rule) + "|"@ + x));
    assert(identity_text(other_rule, other_file, other_a, other_b) =~= b + "|"@ + (rule_key(
        other_rule,
    ) + "|"@ + y));
    lemma_first_bar(a, rule_key(rule) + "|"@ + x, b, rule_key(other_rule) + "|"@ + y);
    lemma_keys_differ(rule, other_rule);
    lemma_keys_differ(other_rule, rule);
    lemma_first_bar(rule_key(rule), x, rule_key(other_rule), y);
}

/// An item of two names tells both, as long as the first holds no colon.
pub proof fn law_items_tell_names_apart(
    rule: Rule,
    file: Seq<char>,
    item_a: Seq<char>,
    item_b: Seq<char>,
    other_a: Seq<char>,
    other_b: Seq<char>,
)
    requires
        rule == Rule::EventField || rule == Rule::EventUnnamedField || rule == Rule::EventVariant
            || rule == Rule::ErrorVariant,
        !item_a.contains(':'),
        !other_a.contains(':'),
        item_text(rule, file, item_a, item_b) == item_text(rule, file, other_a, other_b),
    ensures
        item_a == other_a,
        item_b == other_b,
{
    reveal_strlit("::");
    let whole = item_a + "::"@ + item_b;
    let other = other_a + "::"@ + other_b;
    assert(whole[item_a.len() as int] == ':');
    assert(other[other_a.len() as int] == ':');
    if item_a.len() < other_a.len() {
        assert(other[item_a.len() as int] == other_a[item_a.len() as int]);
        assert(other_a.contains(':'));
    } else if other_a.len() < item_a.len() {
        assert(whole[other_a.len() as int] == item_a[other_a.len() as int]);
        assert(item_a.contains(':'));
    }
    assert(item_a =~= whole.subrange(0, item_a.len() as int));
    assert(other_a =~= other.subrange(0, other_a.len() as int));
    assert(item_b =~= whole.subrange(item_a.len() as int + 2, whole.len() as int));
    assert(other_b =~= other.subrange(other_a.len() as int + 2, other.len() as int));
}

} // verus!
