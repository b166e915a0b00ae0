//! The arguments of the program.
use crate::text::{chars_of, has_prefix, same_str, slice_of, starts_with, string_of, string_views};
use vstd::prelude::*;

verus! {

/// What the arguments ask for.
#[derive(Debug)]
pub enum ConfigPath {
    /// Read the settings from this file.
    Path(String),
    /// Show the usage and end.
    Help,
}

/// What the arguments ask for, with the path as a text.
pub enum ConfigPathText {
    Path(Seq<char>),
    Help,
}

impl View for ConfigPath {
    type V = ConfigPathText;

    open spec fn view(&self) -> ConfigPathText {
        match self {
            ConfigPath::Path(p) => ConfigPathText::Path(p@),
            ConfigPath::Help => ConfigPathText::Help,
        }
    }
}

/// The path that the arguments name from a place on: what follows `--config` or
/// `-c`, or what stands behind `--config=`, whichever comes first.
pub open spec fn named_path(args: Seq<Seq<char>>, from: int) -> Option<Seq<char>>
    decreases args.len() - from,
{
    if from >= args.len() {
        None
    } else if (args[from] == "--config"@ || args[from] == "-c"@) && from + 1 < args.len() {
        Some(args[from + 1])
    } else if starts_with(args[from], "--config="@) {
        Some(args[from].skip("--config="@.len() as int))
    } else {
        named_path(args, from + 1)
    }
}

/// What the arguments ask for: a path that is named comes before help, and
/// without either the path is `config.yaml`.
pub open spec fn path_of(args: Seq<Seq<char>>) -> ConfigPathText {
    match named_path(args, 0) {
        Some(path) => ConfigPathText::Path(path),
        None => if args.contains("--help"@) || args.contains("-h"@) {
            ConfigPathText::Help
        } else {
            ConfigPathText::Path("config.yaml"@)
        },
    }
}

/// Reads the arguments.
pub fn get_config_path(args: &Vec<String>) -> (r: ConfigPath)
    ensures
        r@ == path_of(string_views(args@)),
{
    let ghost texts: Seq<Seq<char>> = string_views(args@);
    let prefix: Vec<char> = chars_of("--config=");
    let mut i: usize = 0;
    while i < args.len()
        invariant
            i <= args@.len(),
            texts == string_views(args@),
            prefix@ == "--config="@,
            named_path(texts, 0) == named_path(texts, i as int),
        decreases args@.len() - i,
    {
        let arg: &str = args[i].as_str();
        assert(texts[i as int] == arg@);
        if (same_str(arg, "--config") || same_str(arg, "-c")) && i + 1 < args.len() {
            assert(texts[i + 1] == args@[i + 1]@);
            return ConfigPath::Path(args[i + 1].clone());
        }
        let chars: Vec<char> = chars_of(arg);
        if has_prefix(&chars, &prefix) {
            let rest: Vec<char> = slice_of(&chars, prefix.len(), chars.len());
            assert(rest@ =~= arg@.skip(prefix@.len() as int));
            return ConfigPath::Path(string_of(&rest));
        }
        i = i + 1;
    }
    let mut k: usize = 0;
    while k < args.len()
        invariant
            k <= args@.len(),
            texts == string_views(args@),
            named_path(texts, 0) is None,
            forall|j: int| 0 <= j < k ==> #[trigger] texts[j] != "--help"@ && texts[j] != "-h"@,
        decreases args@.len() - k,
    {
        assert(texts[k as int] == args@[k as int]@);
        if same_str(args[k].as_str(), "--help") || same_str(args[k].as_str(), "-h") {
            assert(texts.contains(texts[k as int]));
            return ConfigPath::Help;
        }
        k = k + 1;
    }
    ConfigPath::Path("config.yaml".to_string())
}

/// Whether an argument names no file by itself and announces none.
pub open spec fn names_no_path(arg: Seq<char>) -> bool {
    arg != "--config"@ && arg != "-c"@ && !starts_with(arg, "--config="@)
}

/// The first argument that names a file decides: the one behind `--config` or
/// `-c`, or what follows `--config=`.
pub proof fn first_named_path_counts(
    before: Seq<Seq<char>>,
    path: Seq<char>,
    rest: Seq<Seq<char>>,
)
    requires
        forall|i: int| 0 <= i < before.len() ==> names_no_path(#[trigger] before[i]),
    ensures
        path_of(before + seq!["--config"@, path] + rest) == ConfigPathText::Path(path),
        path_of(before + seq!["-c"@, path] + rest) == ConfigPathText::Path(path),
        path_of(before + seq!["--config="@ + path] + rest) == ConfigPathText::Path(path),
{
    let long: Seq<Seq<char>> = before + seq!["--config"@, path] + rest;
    let short: Seq<Seq<char>> = before + seq!["-c"@, path] + rest;
    let joined: Seq<Seq<char>> = before + seq!["--config="@ + path] + rest;
    let n: int = before.len() as int;
    assert(long[n] == "--config"@ && long[n + 1] == path);
    assert(short[n] == "-c"@ && short[n + 1] == path);
    assert(joined[n] == "--config="@ + path);
    assert(joined[n].take("--config="@.len() as int) =~= "--config="@);
    assert(joined[n].skip("--config="@.len() as int) =~= path);
    reveal_strlit("--config");
    reveal_strlit("--config=");
    reveal_strlit("-c");
    assert(joined[n][8] == '=');
    assert("--config"@.len() == 8 && joined[n].len() >= 9);
    lemma_passed_over(long, 0, n);
    lemma_passed_over(short, 0, n);
    lemma_passed_over(joined, 0, n);
}

/// Arguments that name no file are passed over.
proof fn lemma_passed_over(args: Seq<Seq<char>>, from: int, to: int)
    requires
        0 <= from <= to <= args.len(),
        forall|i: int| from <= i < to ==> names_no_path(#[trigger] args[i]),
    ensures
        named_path(args, from) == named_path(args, to),
    decreases to - from,
{
    if from < to {
        assert(names_no_path(args[from]));
        lemma_passed_over(args, from + 1, to);
    }
}

/// Where no argument names a file, help is given if it is asked for, and else
/// the settings are read from `config.yaml`.
pub proof fn unnamed_path_is_the_usual(args: Seq<Seq<char>>)
    requires
        forall|i: int| 0 <= i < args.len() ==> names_no_path(#[trigger] args[i]),
    ensures
        (exists|i: int|
            0 <= i < args.len() && (#[trigger] args[i] == "--help"@ || args[i] == "-h"@))
            ==> path_of(args) is Help,
        (forall|i: int|
            0 <= i < args.len() ==> #[trigger] args[i] != "--help"@ && args[i] != "-h"@)
            ==> path_of(args) == ConfigPathText::Path("config.yaml"@),
{
    lemma_passed_over(args, 0, args.len() as int);
}

/// A flag that announces a file and has nothing behind it names none.
pub proof fn flag_at_the_end_names_no_path(before: Seq<Seq<char>>, flag: Seq<char>)
    requires
        forall|i: int| 0 <= i < before.len() ==> names_no_path(#[trigger] before[i]),
        flag == "--config"@ || flag == "-c"@,
    ensures
        named_path(before.push(flag), 0) is None,
        path_of(before.push(flag)) == path_of(before),
{
    let args: Seq<Seq<char>> = before.push(flag);
    let n: int = before.len() as int;
    reveal_strlit("--config");
    reveal_strlit("-c");
    reveal_strlit("--config=");
    reveal_strlit("--help");
    reveal_strlit("-h");
    assert(args[n] == flag);
    assert("--config="@.len() > flag.len());
    assert forall|i: int| 0 <= i < n implies names_no_path(#[trigger] args[i]) by {
        assert(args[i] == before[i]);
    }
    lemma_passed_over(args, 0, n);
    lemma_passed_over(before, 0, n);
    assert(named_path(args, n + 1) is None);
    assert(named_path(args, n) is None);
    assert(named_path(before, n) is None);
    assert(flag != "--help"@ && flag != "-h"@) by {
        assert("--config"@.len() == 8 && "--help"@.len() == 6 && "-h"@.len() == 2);
        assert("-c"@[1] != "-h"@[1] && "-c"@.len() == 2);
    }
    assert forall|word: Seq<char>| word != flag implies (args.contains(word) <==> #[trigger]
        before.contains(word)) by {
        if args.contains(word) {
            let i = choose|i: int| 0 <= i < args.len() && args[i] == word;
            assert(before[i] == word);
        }
        if before.contains(word) {
            let i = choose|i: int| 0 <= i < before.len() && before[i] == word;
            assert(args[i] == word);
        }
    }
    assert(before.contains("--help"@) || !before.contains("--help"@));
    assert(before.contains("-h"@) || !before.contains("-h"@));
}

} // verus!
