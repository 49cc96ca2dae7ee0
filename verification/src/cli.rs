//! The command line.

use crate::findings::{default_config, CheckConfig, Severity};
use crate::text::{list_contains, opt_view, same_text, views};
use vstd::prelude::*;

verus! {

/// What the command line asks for.
#[derive(Debug)]
pub struct Options {
    /// Show the help and do nothing else.
    pub help: bool,
    /// Which rules to apply, and how strictly.
    pub config: CheckConfig,
    /// Write a new baseline in place of checking against one.
    pub update_baseline: bool,
    /// Where the baseline is, if it was given.
    pub baseline: Option<String>,
}

/// The model of [`Options`].
pub struct OptionsView {
    pub help: bool,
    pub config: CheckConfig,
    pub update_baseline: bool,
    pub baseline: Option<Seq<char>>,
}

impl View for Options {
    type V = OptionsView;

    open spec fn view(&self) -> OptionsView {
        OptionsView {
            help: self.help,
            config: self.config,
            update_baseline: self.update_baseline,
            baseline: opt_view(self.baseline),
        }
    }
}

/// What stands behind the first `name`, if anything does.
pub open spec fn value_of(args: Seq<Seq<char>>, name: Seq<char>) -> Option<Seq<char>>
    decreases args.len(),
{
    if args.len() == 0 {
        None
    } else if args[0] == name {
        if args.len() > 1 {
            Some(args[1])
        } else {
            None
        }
    } else {
        value_of(args.drop_first(), name)
    }
}

/// The configuration that the command line asks for.
pub open spec fn config_of(args: Seq<Seq<char>>) -> CheckConfig {
    CheckConfig {
        check_events: args.contains("--events"@) || args.contains("-e"@),
        check_undocumented_fns: !args.contains("--no-undocumented-fns"@),
        check_error_enums: !args.contains("--no-error-enums"@),
        check_orphaned_docs: !args.contains("--no-orphaned-docs"@),
        check_stale_refs: !args.contains("--no-stale-refs"@),
        new_check_severity: if args.contains("--strict"@) {
            Severity::Fail
        } else {
            Severity::Warn
        },
    }
}

/// What the command line asks for.
pub open spec fn options_of(args: Seq<Seq<char>>) -> OptionsView {
    OptionsView {
        help: args.contains("--help"@) || args.contains("-h"@),
        config: config_of(args),
        update_baseline: args.contains("--update-baseline"@),
        baseline: value_of(args, "--baseline"@),
    }
}

/// Without any option the configuration is the default one.
pub proof fn law_no_options_mean_defaults(args: Seq<Seq<char>>)
    requires
        forall|i: int| 0 <= i < args.len() ==> (#[trigger] args[i]).len() > 0 && args[i][0] != '-',
    ensures
        config_of(args) == default_config(),
{
    reveal_strlit("--events");
    reveal_strlit("-e");
    reveal_strlit("--no-undocumented-fns");
    reveal_strlit("--no-error-enums");
    reveal_strlit("--no-orphaned-docs");
    reveal_strlit("--no-stale-refs");
    reveal_strlit("--strict");
    assert("--events"@[0] == '-' && "-e"@[0] == '-' && "--strict"@[0] == '-');
    assert("--no-undocumented-fns"@[0] == '-' && "--no-error-enums"@[0] == '-');
    assert("--no-orphaned-docs"@[0] == '-' && "--no-stale-refs"@[0] == '-');
}

/// The value behind the first `name`, if there is one.
fn value_after(args: &Vec<String>, name: &str) -> (value: Option<String>)
    ensures
        opt_view(value) == value_of(views(args@), name@),
{
    let ghost all = views(args@);
    let mut i: usize = 0;
    assert(all.skip(0) =~= all);
    while i < args.len()
        invariant
            i <= args@.len(),
            all == views(args@),
            value_of(all, name@) == value_of(all.skip(i as int), name@),
        decreases args@.len() - i,
    {
        assert(all.skip(i as int)[0] == args@[i as int]@);
        if same_text(&args[i], name) {
            if i + 1 < args.len() {
                assert(all.skip(i as int)[1] == args@[i + 1]@);
                return Some(args[i + 1].clone());
            }
            return None;
        }
        assert(all.skip(i as int).drop_first() =~= all.skip(i + 1));
        i = i + 1;
    }
    None
}

/// Reads the command line. Options that it does not know are passed over.
pub fn parse_args(args: &Vec<String>) -> (options: Options)
    ensures
        options@ == options_of(views(args@)),
{
    let config: CheckConfig = CheckConfig {
        check_events: list_contains(args, "--events") || list_contains(args, "-e"),
        check_undocumented_fns: !list_contains(args, "--no-undocumented-fns"),
        check_error_enums: !list_contains(args, "--no-error-enums"),
        check_orphaned_docs: !list_contains(args, "--no-orphaned-docs"),
        check_stale_refs: !list_contains(args, "--no-stale-refs"),
        new_check_severity: if list_contains(args, "--strict") {
            Severity::Fail
        } else {
            Severity::Warn
        },
    };
    Options {
        help: list_contains(args, "--help") || list_contains(args, "-h"),
        config,
        update_baseline: list_contains(args, "--update-baseline"),
        baseline: value_after(args, "--baseline"),
    }
}

} // verus!
