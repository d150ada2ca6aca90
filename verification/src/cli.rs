//! The command line as the program sees it once parsed, and the log level it asks for.
use vstd::prelude::*;
use crate::text::{chars_of, lowercase, same_text, to_lowercase};

verus! {

pub struct Args {
    /// Path to the configuration file.
    pub config: Option<String>,
    /// Log level: debug, info, warn or error.
    pub log_level: String,
    /// Whether GPU monitoring is off.
    pub no_gpu: bool,
}

/// How much the log records.
#[derive(Clone, Copy, Debug, PartialEq, Eq, Structural)]
pub enum LogLevel {
    Error,
    Warn,
    Info,
    Debug,
}

/// The level a lowercase name stands for; any name it does not know means `Info`.
pub open spec fn level_named(name: Seq<char>) -> LogLevel {
    if name == seq!['d', 'e', 'b', 'u', 'g'] {
        LogLevel::Debug
    } else if name == seq!['e', 'r', 'r', 'o', 'r'] {
        LogLevel::Error
    } else if name == seq!['w', 'a', 'r', 'n'] {
        LogLevel::Warn
    } else {
        LogLevel::Info
    }
}

/// The level `--log-level` asks for, whatever its case.
pub fn log_level(level: &str) -> (l: LogLevel)
    ensures
        l == level_named(lowercase(level@)),
{
    let lower = to_lowercase(level);
    let name = chars_of(lower.as_str());
    if same_text(&name, &vec!['d', 'e', 'b', 'u', 'g']) {
        LogLevel::Debug
    } else if same_text(&name, &vec!['e', 'r', 'r', 'o', 'r']) {
        LogLevel::Error
    } else if same_text(&name, &vec!['w', 'a', 'r', 'n']) {
        LogLevel::Warn
    } else {
        LogLevel::Info
    }
}

} // verus!
