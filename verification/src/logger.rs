//! The system logger's filter and line format.
use vstd::prelude::*;

verus! {

/// Severity of a log record, from most to least severe.
#[derive(Clone, Copy, PartialEq, Eq, Structural, Debug)]
pub enum LogLevel {
    Error,
    Warn,
    Info,
    Debug,
    Trace,
}

/// Rank of a level: 1 for `Error` up to 5 for `Trace`.
pub open spec fn level_rank(level: LogLevel) -> int {
    match level {
        LogLevel::Error => 1,
        LogLevel::Warn => 2,
        LogLevel::Info => 3,
        LogLevel::Debug => 4,
        LogLevel::Trace => 5,
    }
}

/// The name a level is printed with.
pub open spec fn level_name(level: LogLevel) -> Seq<char> {
    match level {
        LogLevel::Error => seq!['E', 'R', 'R', 'O', 'R'],
        LogLevel::Warn => seq!['W', 'A', 'R', 'N'],
        LogLevel::Info => seq!['I', 'N', 'F', 'O'],
        LogLevel::Debug => seq!['D', 'E', 'B', 'U', 'G'],
        LogLevel::Trace => seq!['T', 'R', 'A', 'C', 'E'],
    }
}

/// The logger that writes records to the platform's console.
pub struct HalLogger;

impl HalLogger {
    /// Records of level `Info` and more severe are written.
    pub fn enabled(level: LogLevel) -> (on: bool)
        ensures
            on == (level_rank(level) <= 3),
    {
        match level {
            LogLevel::Error | LogLevel::Warn | LogLevel::Info => true,
            _ => false,
        }
    }

    /// The line written for a record: its level, ` - `, its message and a
    /// line feed.
    pub fn format_line(level: LogLevel, message: &str) -> (line: String)
        ensures
            line@ == level_name(level) + seq![' ', '-', ' '] + message@ + seq!['\n'],
    {
        let mut line = match level {
            LogLevel::Error => String::from_str("ERROR"),
            LogLevel::Warn => String::from_str("WARN"),
            LogLevel::Info => String::from_str("INFO"),
            LogLevel::Debug => String::from_str("DEBUG"),
            LogLevel::Trace => String::from_str("TRACE"),
        };
        proof {
            reveal_strlit("ERROR");
            reveal_strlit("WARN");
            reveal_strlit("INFO");
            reveal_strlit("DEBUG");
            reveal_strlit("TRACE");
            reveal_strlit(" - ");
            reveal_strlit("\n");
        }
        line.append(" - ");
        line.append(message);
        line.append("\n");
        proof {
            assert(line@ =~= level_name(level) + seq![' ', '-', ' '] + message@ + seq!['\n']);
        }
        line
    }
}

} // verus!
