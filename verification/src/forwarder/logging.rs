//! What is logged, how and where to.
use crate::forwarder::config::LoggingConfig;
use crate::text::{lowercased, same_str, to_lowercase};
use vstd::prelude::*;

verus! {

/// How important a message has to be.
#[derive(Clone, Copy, Debug, PartialEq, Eq, Structural)]
pub enum LogLevel {
    Trace,
    Debug,
    Info,
    Warn,
    Error,
}

/// Where messages go.
#[derive(Debug)]
pub enum LogOutput {
    Stdout,
    Stderr,
    /// To the end of a file.
    File(String),
}

/// How messages are logged.
#[derive(Debug)]
pub struct LogPlan {
    pub level: LogLevel,
    pub json: bool,
    pub output: LogOutput,
}

/// The level with a name in lower case.
pub open spec fn level_named(name: Seq<char>) -> LogLevel {
    if name == "trace"@ {
        LogLevel::Trace
    } else if name == "debug"@ {
        LogLevel::Debug
    } else if name == "warn"@ {
        LogLevel::Warn
    } else if name == "error"@ {
        LogLevel::Error
    } else {
        LogLevel::Info
    }
}

/// Whether an output is the one that a setting names, where `lower` is the
/// setting in lower case: that of a stream, else the file at just that path.
pub open spec fn is_output_named(output: LogOutput, lower: Seq<char>, setting: Seq<char>) -> bool {
    if lower == "stdout"@ {
        output is Stdout
    } else if lower == "stderr"@ {
        output is Stderr
    } else {
        output matches LogOutput::File(path) && path@ == setting
    }
}

/// Decides how messages are logged, from names in lower case and the output as
/// it is set.
pub fn plan_from_lowercase(level: &str, format: &str, lower: &str, output: &str) -> (plan: LogPlan)
    ensures
        plan.level == level_named(level@),
        plan.json == (format@ == "json"@),
        is_output_named(plan.output, lower@, output@),
{
    let level: LogLevel = if same_str(level, "trace") {
        LogLevel::Trace
    } else if same_str(level, "debug") {
        LogLevel::Debug
    } else if same_str(level, "warn") {
        LogLevel::Warn
    } else if same_str(level, "error") {
        LogLevel::Error
    } else {
        LogLevel::Info
    };
    let output: LogOutput = if same_str(lower, "stdout") {
        LogOutput::Stdout
    } else if same_str(lower, "stderr") {
        LogOutput::Stderr
    } else {
        LogOutput::File(output.to_string())
    };
    LogPlan { level, json: same_str(format, "json"), output }
}

/// Decides how messages are logged. The names in the settings count in lower
/// case, but the path of a file is taken as it is.
pub fn plan_logging(config: &LoggingConfig) -> (plan: LogPlan)
    ensures
        plan.level == level_named(lowercased(config.level@)),
        plan.json == (lowercased(config.format@) == "json"@),
        is_output_named(plan.output, lowercased(config.output@), config.output@),
        plan.output matches LogOutput::File(path) ==> path@ == config.output@,
{
    let level: String = to_lowercase(config.level.as_str());
    let format: String = to_lowercase(config.format.as_str());
    let lower: String = to_lowercase(config.output.as_str());
    plan_from_lowercase(level.as_str(), format.as_str(), lower.as_str(), config.output.as_str())
}

/// Each level has its name, and every other name stands for the middle one.
pub proof fn levels_have_names(name: Seq<char>)
    ensures
        level_named(name) is Trace <==> name == "trace"@,
        level_named(name) is Debug <==> name == "debug"@,
        level_named(name) is Warn <==> name == "warn"@,
        level_named(name) is Error <==> name == "error"@,
{
    reveal_strlit("trace");
    reveal_strlit("debug");
    reveal_strlit("warn");
    reveal_strlit("error");
    assert("trace"@[0] == 't' && "debug"@[0] == 'd' && "warn"@[0] == 'w' && "error"@[0] == 'e');
}

/// The log goes to a file if and only if neither stream is named, and then to
/// the file that is named, its name as it is written.
pub proof fn other_outputs_are_files(output: LogOutput, lower: Seq<char>, setting: Seq<char>)
    requires
        is_output_named(output, lower, setting),
    ensures
        output is Stdout <==> lower == "stdout"@,
        output is Stderr <==> lower == "stderr"@,
        output matches LogOutput::File(path) ==> path@ == setting,
{
    reveal_strlit("stdout");
    reveal_strlit("stderr");
    assert("stdout"@[3] != "stderr"@[3]);
}

} // verus!
