//! The arguments of the program.
use crate::text::{same_str, string_views};
use vstd::prelude::*;

verus! {

/// What the arguments ask for.
#[derive(Clone, Copy, Debug, PartialEq, Eq, Structural)]
pub struct CliArgs {
    pub scan: bool,
    pub scan_on_start: bool,
    pub rank_colos: bool,
    pub help: bool,
}

/// Whether an argument is one that the program knows.
pub open spec fn is_known(arg: Seq<char>) -> bool {
    ||| arg == "--scan"@
    ||| arg == "--scan-on-start"@
    ||| arg == "--rank-colos"@
    ||| arg == "--help"@
    ||| arg == "-h"@
}

/// Whether help is asked for: by name, or by an argument that is not known.
pub open spec fn asks_help(args: Seq<Seq<char>>) -> bool {
    exists|i: int|
        0 <= i < args.len() && (#[trigger] args[i] == "--help"@ || args[i] == "-h"@ || !is_known(
            args[i],
        ))
}

/// The arguments that are not known, in order.
pub open spec fn unknown_args(args: Seq<Seq<char>>) -> Seq<Seq<char>> {
    args.filter(|arg: Seq<char>| !is_known(arg))
}

/// Reads the arguments behind the name of the program, and lists those that
/// are not known.
pub fn parse_args(args: &Vec<String>) -> (r: (CliArgs, Vec<String>))
    ensures
        r.0.scan == string_views(args@).contains("--scan"@),
        r.0.scan_on_start == string_views(args@).contains("--scan-on-start"@),
        r.0.rank_colos == string_views(args@).contains("--rank-colos"@),
        r.0.help == asks_help(string_views(args@)),
        string_views(r.1@) == unknown_args(string_views(args@)),
{
    proof {
        reveal_strlit("--scan");
        reveal_strlit("--scan-on-start");
        reveal_strlit("--rank-colos");
        reveal_strlit("--help");
        reveal_strlit("-h");
        assert("--scan"@.len() == 6 && "--scan-on-start"@.len() == 15 && "--rank-colos"@.len() == 12
            && "--help"@.len() == 6 && "-h"@.len() == 2);
        assert("--scan"@[2] != "--help"@[2]);
    }
    let ghost texts: Seq<Seq<char>> = string_views(args@);
    let mut cli: CliArgs = CliArgs {
        scan: false,
        scan_on_start: false,
        rank_colos: false,
        help: false,
    };
    let mut unknown: Vec<String> = Vec::new();
    let mut i: usize = 0;
    assert(string_views(unknown@) =~= unknown_args(texts.take(0))) by {
        reveal(Seq::filter);
    }
    while i < args.len()
        invariant
            i <= args@.len(),
            texts == string_views(args@),
            "--scan"@ != "--scan-on-start"@,
            "--scan"@ != "--rank-colos"@,
            "--scan"@ != "--help"@,
            "--scan"@ != "-h"@,
            "--scan-on-start"@ != "--rank-colos"@,
            "--scan-on-start"@ != "--help"@,
            "--scan-on-start"@ != "-h"@,
            "--rank-colos"@ != "--help"@,
            "--rank-colos"@ != "-h"@,
            cli.scan == texts.take(i as int).contains("--scan"@),
            cli.scan_on_start == texts.take(i as int).contains("--scan-on-start"@),
            cli.rank_colos == texts.take(i as int).contains("--rank-colos"@),
            cli.help == asks_help(texts.take(i as int)),
            string_views(unknown@) == unknown_args(texts.take(i as int)),
        decreases args@.len() - i,
    {
        let arg: &str = args[i].as_str();
        let ghost seen: Seq<Seq<char>> = texts.take(i as int);
        let ghost now: Seq<Seq<char>> = texts.take(i + 1);
        proof {
            assert(texts[i as int] == arg@);
            assert(now =~= seen.push(arg@));
            assert(now.drop_last() =~= seen);
            assert(now[i as int] == arg@);
            assert forall|s: Seq<char>| #[trigger] now.contains(s) <==> seen.contains(s) || s
                == arg@ by {
                if seen.contains(s) {
                    let j = choose|j: int| 0 <= j < seen.len() && seen[j] == s;
                    assert(now[j] == s);
                }
                if s == arg@ {
                    assert(now[i as int] == s);
                }
            }
            assert(asks_help(now) <==> asks_help(seen) || arg@ == "--help"@ || arg@ == "-h"@
                || !is_known(arg@)) by {
                if asks_help(seen) {
                    let j = choose|j: int|
                        0 <= j < seen.len() && (#[trigger] seen[j] == "--help"@ || seen[j]
                            == "-h"@ || !is_known(seen[j]));
                    assert(now[j] == seen[j]);
                }
                if asks_help(now) {
                    let j = choose|j: int|
                        0 <= j < now.len() && (#[trigger] now[j] == "--help"@ || now[j] == "-h"@
                            || !is_known(now[j]));
                    if j < seen.len() {
                        assert(now[j] == seen[j]);
                    }
                }
            }
            reveal(Seq::filter);
        }
        if same_str(arg, "--scan") {
            cli.scan = true;
        } else if same_str(arg, "--scan-on-start") {
            cli.scan_on_start = true;
        } else if same_str(arg, "--rank-colos") {
            cli.rank_colos = true;
        } else if same_str(arg, "--help") || same_str(arg, "-h") {
            cli.help = true;
        } else {
            cli.help = true;
            let ghost before: Seq<String> = unknown@;
            unknown.push(args[i].clone());
            assert(string_views(unknown@) =~= string_views(before).push(arg@));
        }
        i = i + 1;
    }
    assert(texts.take(i as int) =~= texts);
    (cli, unknown)
}

/// What the program does.
#[derive(Clone, Copy, Debug, PartialEq, Eq, Structural)]
pub enum RunMode {
    Help,
    /// Scan, save and end.
    Scan,
    /// Show the ranking of the data centres and end.
    RankColos,
    /// Forward, with a scan first where `scan_on_start` is set.
    Forward { scan_on_start: bool },
}

/// What the program does for given arguments.
pub open spec fn mode_of(args: CliArgs) -> RunMode {
    if args.help {
        RunMode::Help
    } else if args.scan {
        RunMode::Scan
    } else if args.rank_colos {
        RunMode::RankColos
    } else {
        RunMode::Forward { scan_on_start: args.scan_on_start }
    }
}

/// Decides what the program does: help comes before a scan, a scan before the
/// ranking, and without any of these it forwards.
pub fn run_mode(args: CliArgs) -> (mode: RunMode)
    ensures
        mode == mode_of(args),
{
    if args.help {
        return RunMode::Help;
    }
    if args.scan {
        return RunMode::Scan;
    }
    if args.rank_colos {
        return RunMode::RankColos;
    }
    RunMode::Forward { scan_on_start: args.scan_on_start }
}

/// An argument that is none of the flags is told back and asks for help; a flag
/// is not told back. The arguments told back are in order.
pub proof fn unknown_arguments_ask_for_help(
    a: Seq<Seq<char>>,
    arg: Seq<char>,
    b: Seq<Seq<char>>,
)
    ensures
        ({
            let flag = arg == "--scan"@ || arg == "--scan-on-start"@ || arg == "--rank-colos"@
                || arg == "--help"@ || arg == "-h"@;
            &&& flag ==> unknown_args(a + seq![arg] + b) == unknown_args(a) + unknown_args(b)
            &&& !flag ==> unknown_args(a + seq![arg] + b) == unknown_args(a) + seq![arg]
                + unknown_args(b)
            &&& !flag || arg == "--help"@ || arg == "-h"@ ==> asks_help(a + seq![arg] + b)
        }),
        unknown_args(Seq::empty()).len() == 0,
        !asks_help(Seq::empty()),
{
    let pred = |x: Seq<char>| !is_known(x);
    let none: Seq<Seq<char>> = Seq::empty();
    let whole: Seq<Seq<char>> = a + seq![arg] + b;
    Seq::filter_distributes_over_add(a + seq![arg], b, pred);
    Seq::filter_distributes_over_add(a, seq![arg], pred);
    reveal(Seq::filter);
    assert(none.filter(pred) =~= none);
    assert(seq![arg].drop_last() =~= none);
    assert(seq![arg].filter(pred) =~= if pred(arg) {
        seq![arg]
    } else {
        none
    });
    assert(whole[a.len() as int] == arg);
    if is_known(arg) {
        assert(a.filter(pred) + none =~= a.filter(pred));
    }
}

/// Flags that neither ask for help nor are unknown ask for no help.
pub proof fn known_flags_ask_for_no_help(args: Seq<Seq<char>>)
    requires
        forall|i: int|
            0 <= i < args.len() ==> #[trigger] args[i] == "--scan"@ || args[i]
                == "--scan-on-start"@ || args[i] == "--rank-colos"@,
    ensures
        !asks_help(args),
{
    reveal_strlit("--scan");
    reveal_strlit("--scan-on-start");
    reveal_strlit("--rank-colos");
    reveal_strlit("--help");
    reveal_strlit("-h");
    assert("--scan"@[2] != "--help"@[2] && "--rank-colos"@[2] != "--help"@[2]);
    assert("--scan-on-start"@[2] != "--help"@[2]);
    assert("--scan"@.len() != "-h"@.len() && "--rank-colos"@.len() != "-h"@.len());
    assert("--scan-on-start"@.len() != "-h"@.len());
}

/// Help goes before all else, a scan before the ranking, and the ranking before
/// forwarding, which scans at the start where that was asked for.
pub proof fn help_goes_first(args: CliArgs)
    ensures
        args.help ==> mode_of(args) is Help,
        !args.help && args.scan ==> mode_of(args) is Scan,
        !args.help && !args.scan && args.rank_colos ==> mode_of(args) is RankColos,
        !args.help && !args.scan && !args.rank_colos ==> (mode_of(args) matches RunMode::Forward {
            scan_on_start,
        } && scan_on_start == args.scan_on_start),
{
}

} // verus!
