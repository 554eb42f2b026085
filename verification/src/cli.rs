//! Command-line arguments of the server.
use vstd::prelude::*;
use crate::syntax::eq_lit;
use crate::text::{chars_of, starts_with, starts_with_exec, string_of, trim, trim_range};

verus! {

/// What the command line asks for.
pub struct Cli {
    pub show_help: bool,
    pub show_version: bool,
    pub log_level: Option<String>,
}

pub struct CliView {
    pub show_help: bool,
    pub show_version: bool,
    pub log_level: Option<Seq<char>>,
}

impl View for Cli {
    type V = CliView;

    open spec fn view(&self) -> CliView {
        CliView {
            show_help: self.show_help,
            show_version: self.show_version,
            log_level: match self.log_level {
                Some(l) => Some(l@),
                None => None,
            },
        }
    }
}

/// The reading of the arguments from index `i` on, starting from `acc`:
/// `-h`/`--help` and `-V`/`--version` set their flags, `--log-level=L` and
/// `--log-level L` set the level (a blank `L` or one starting with `-` is not taken),
/// and anything else (such as the transport arguments an editor adds) is skipped.
pub open spec fn cli_from(args: Seq<Seq<char>>, i: int, acc: CliView) -> CliView
    decreases args.len() - i,
{
    if i < 0 || i >= args.len() {
        acc
    } else {
        let a = args[i];
        if a == "-h"@ || a == "--help"@ {
            cli_from(args, i + 1, CliView { show_help: true, ..acc })
        } else if a == "-V"@ || a == "--version"@ {
            cli_from(args, i + 1, CliView { show_version: true, ..acc })
        } else if starts_with(a, "--log-level="@) {
            let level = trim(a.skip("--log-level="@.len() as int));
            if level.len() > 0 {
                cli_from(args, i + 1, CliView { log_level: Some(level), ..acc })
            } else {
                cli_from(args, i + 1, acc)
            }
        } else if a == "--log-level"@ && i + 1 < args.len() && !starts_with(args[i + 1], "-"@) {
            cli_from(args, i + 2, CliView { log_level: Some(trim(args[i + 1])), ..acc })
        } else {
            cli_from(args, i + 1, acc)
        }
    }
}

pub open spec fn spec_cli(args: Seq<Seq<char>>) -> CliView {
    cli_from(args, 0, CliView { show_help: false, show_version: false, log_level: None })
}

/// An argument that the server reads: a help, version or log-level option.
pub open spec fn is_server_option(a: Seq<char>) -> bool {
    a == "-h"@ || a == "--help"@ || a == "-V"@ || a == "--version"@ || starts_with(a, "--log-level="@)
        || a == "--log-level"@
}

proof fn lemma_skip_unknown(args: Seq<Seq<char>>, i: int, acc: CliView)
    requires
        0 <= i,
        forall|k: int| 0 <= k < args.len() ==> !is_server_option(#[trigger] args[k]),
    ensures
        cli_from(args, i, acc) == acc,
    decreases args.len() - i,
{
    if i < args.len() {
        assert(!is_server_option(args[i]));
        lemma_skip_unknown(args, i + 1, acc);
    }
}

/// Arguments that are none of the server's options, such as those of an editor's
/// transport, leave every setting at its default.
pub proof fn law_unknown_arguments_ignored(args: Seq<Seq<char>>)
    requires
        forall|k: int| 0 <= k < args.len() ==> !is_server_option(#[trigger] args[k]),
    ensures
        spec_cli(args) == (CliView { show_help: false, show_version: false, log_level: None }),
{
    lemma_skip_unknown(args, 0, CliView { show_help: false, show_version: false, log_level: None });
}

/// Reads the command-line arguments (without the program name).
pub fn parse_cli_args(args: &Vec<String>) -> (r: Cli)
    ensures
        r@ == spec_cli(args@.map_values(|s: String| s@)),
{
    let ghost av = args@.map_values(|s: String| s@);
    let mut cli = Cli { show_help: false, show_version: false, log_level: None };
    let eq_prefix = chars_of("--log-level=");
    let dash = chars_of("-");
    let mut index: usize = 0;
    while index < args.len()
        invariant
            index <= args@.len(),
            av == args@.map_values(|s: String| s@),
            eq_prefix@ == "--log-level="@,
            dash@ == "-"@,
            spec_cli(av) == cli_from(av, index as int, cli@),
        decreases args@.len() - index,
    {
        let arg = chars_of(args[index].as_str());
        assert(arg@ == av[index as int]);
        if eq_lit(arg.as_slice(), "-h") || eq_lit(arg.as_slice(), "--help") {
            cli.show_help = true;
            index = index + 1;
            continue;
        }
        if eq_lit(arg.as_slice(), "-V") || eq_lit(arg.as_slice(), "--version") {
            cli.show_version = true;
            index = index + 1;
            continue;
        }
        if starts_with_exec(arg.as_slice(), eq_prefix.as_slice()) {
            let rest = &arg.as_slice()[eq_prefix.len()..arg.len()];
            assert(rest@ =~= arg@.skip("--log-level="@.len() as int));
            let (a, b) = trim_range(rest);
            if a < b {
                cli.log_level = Some(string_of(&rest[a..b]));
            }
            index = index + 1;
            continue;
        }
        if eq_lit(arg.as_slice(), "--log-level") {
            if index + 1 < args.len() {
                let next = chars_of(args[index + 1].as_str());
                assert(next@ == av[index + 1]);
                if !starts_with_exec(next.as_slice(), dash.as_slice()) {
                    let (a, b) = trim_range(next.as_slice());
                    cli.log_level = Some(string_of(&next.as_slice()[a..b]));
                    index = index + 2;
                    continue;
                }
            }
            index = index + 1;
            continue;
        }
        index = index + 1;
    }
    cli
}

} // verus!
