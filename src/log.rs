//! Log line formatting.

use vstd::prelude::*;

verus! {

pub const COLOR_DEFAULT: &'static str = "\x1b[0m";

pub const LOG_COLOR: &'static str = "\x1b[0m";

pub const WARN_COLOR: &'static str = "\x1b[33m";

pub const ERROR_COLOR: &'static str = "\x1b[31m";

/// Severity of a log line.
#[derive(Clone, Copy, Debug, PartialEq, Eq, Structural)]
pub enum LogLevel {
    Log,
    Warn,
    Error,
}

/// The terminal color that opens a line of the given level.
pub open spec fn level_color(level: LogLevel) -> Seq<char> {
    match level {
        LogLevel::Log => LOG_COLOR@,
        LogLevel::Warn => WARN_COLOR@,
        LogLevel::Error => ERROR_COLOR@,
    }
}

/// The tag written in brackets at the start of a line of the given level.
pub open spec fn level_tag(level: LogLevel) -> Seq<char> {
    match level {
        LogLevel::Log => "LOG"@,
        LogLevel::Warn => "WARN"@,
        LogLevel::Error => "ERROR"@,
    }
}

/// `[TAG] <color>message<reset>`
pub open spec fn log_text(level: LogLevel, message: Seq<char>) -> Seq<char> {
    "["@ + level_tag(level) + "] "@ + level_color(level) + message + COLOR_DEFAULT@
}

/// Formats one log line; printing it is left to the caller.
pub fn log_line(level: LogLevel, message: &str) -> (r: String)
    ensures
        r@ == log_text(level, message@),
{
    let color = match level {
        LogLevel::Log => LOG_COLOR,
        LogLevel::Warn => WARN_COLOR,
        LogLevel::Error => ERROR_COLOR,
    };
    let tag = match level {
        LogLevel::Log => "LOG",
        LogLevel::Warn => "WARN",
        LogLevel::Error => "ERROR",
    };
    let mut line = String::from_str("[");
    line.append(tag);
    line.append("] ");
    line.append(color);
    line.append(message);
    line.append(COLOR_DEFAULT);
    line
}

} // verus!
