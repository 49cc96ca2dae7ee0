//! What the command line asks for.

use crate::cli::{config_of, options_of, value_of, Options};
use crate::findings::Severity;
use crate::text::opt_view;
use vstd::prelude::*;

verus! {

/// One of the arguments is `name`.
pub open spec fn is_given(args: Seq<Seq<char>>, name: Seq<char>) -> bool {
    exists|i: int| 0 <= i < args.len() && #[trigger] args[i] == name
}

/// Every option counts at any place, and nothing else changes what is asked
/// for.
pub proof fn law_options_count_at_any_place(args: Seq<Seq<char>>)
    ensures
        ({
            let options = options_of(args);
            let config = config_of(args);
            &&& options.config == config
            &&& options.help <==> is_given(args, "--help"@) || is_given(args, "-h"@)
            &&& options.update_baseline <==> is_given(args, "--update-baseline"@)
            &&& config.check_events <==> is_given(args, "--events"@) || is_given(args, "-e"@)
            &&& config.check_undocumented_fns <==> !is_given(args, "--no-undocumented-fns"@)
            &&& config.check_error_enums <==> !is_given(args, "--no-error-enums"@)
            &&& config.check_orphaned_docs <==> !is_given(args, "--no-orphaned-docs"@)
            &&& config.check_stale_refs <==> !is_given(args, "--no-stale-refs"@)
            &&& config.new_check_severity == Severity::Fail <==> is_given(args, "--strict"@)
            &&& config.new_check_severity == Severity::Warn <==> !is_given(args, "--strict"@)
        }),
{
    lemma_given(args, "--help"@);
    lemma_given(args, "-h"@);
    lemma_given(args, "--update-baseline"@);
    lemma_given(args, "--events"@);
    lemma_given(args, "-e"@);
    lemma_given(args, "--no-undocumented-fns"@);
    lemma_given(args, "--no-error-enums"@);
    lemma_given(args, "--no-orphaned-docs"@);
    lemma_given(args, "--no-stale-refs"@);
    lemma_given(args, "--strict"@);
}

proof fn lemma_given(args: Seq<Seq<char>>, name: Seq<char>)
    ensures
        args.contains(name) <==> is_given(args, name),
{
    if is_given(args, name) {
        let i = choose|i: int| 0 <= i < args.len() && #[trigger] args[i] == name;
        assert(args.contains(args[i]));
    }
}

/// The value of an option is what stands behind its first place. An option
/// that is not given, or that nothing follows, has none.
pub proof fn law_the_value_stands_behind_the_option(
    a: Seq<Seq<char>>,
    name: Seq<char>,
    value: Seq<char>,
    b: Seq<Seq<char>>,
)
    requires
        !is_given(a, name),
    ensures
        value_of(a + seq![name, value] + b, name) == Some(value),
        value_of(a + seq![name], name) is None,
        value_of(a, name) is None,
        name == "--baseline"@ ==> {
            &&& options_of(a + seq![name, value] + b).baseline == Some(value)
            &&& options_of(a + seq![name]).baseline is None
            &&& options_of(a).baseline is None
        },
    decreases a.len(),
{
    let long = a + seq![name, value] + b;
    let short = a + seq![name];
    if a.len() > 0 {
        let less = a.drop_first();
        assert(a[0] != name);
        assert(!is_given(less, name)) by {
            assert forall|i: int| 0 <= i < less.len() implies #[trigger] less[i] != name by {
                assert(less[i] == a[i + 1]);
            }
        }
        law_the_value_stands_behind_the_option(less, name, value, b);
        assert(long.drop_first() =~= less + seq![name, value] + b);
        assert(short.drop_first() =~= less + seq![name]);
        assert(long[0] == a[0] && short[0] == a[0]);
    } else {
        assert(long[0] == name && long[1] == value);
        assert(short[0] == name);
    }
}

/// The model of what is asked for says the same.
pub proof fn law_the_model_holds_every_option(options: Options)
    ensures
        options@.help == options.help,
        options@.config == options.config,
        options@.update_baseline == options.update_baseline,
        options@.baseline == opt_view(options.baseline),
{
}

} // verus!
