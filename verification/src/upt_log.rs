//! The text log pipeline's rules: severity levels, the level filter, and
//! the layout of a log line (`<time> [<LEVEL>] <message>`).
use vstd::prelude::*;

verus! {

/// Log severity, from least to most severe.
#[derive(Debug, Clone, Copy, PartialEq, Eq, PartialOrd, Ord, Structural)]
pub enum Level {
    Debug,
    Info,
    Warn,
    Error,
}

/// The rank of a level: 0 for `Debug` up to 3 for `Error` (the order of
/// the variants).
pub open spec fn spec_rank(l: Level) -> int {
    match l {
        Level::Debug => 0,
        Level::Info => 1,
        Level::Warn => 2,
        Level::Error => 3,
    }
}

/// The upper-case name of a level as it appears in a log line.
pub open spec fn spec_level_name(l: Level) -> Seq<char> {
    match l {
        Level::Debug => "DEBUG"@,
        Level::Info => "INFO"@,
        Level::Warn => "WARN"@,
        Level::Error => "ERROR"@,
    }
}

impl Level {
    pub fn as_str(self) -> (r: &'static str)
        ensures
            r@ == spec_level_name(self),
    {
        match self {
            Level::Debug => "DEBUG",
            Level::Info => "INFO",
            Level::Warn => "WARN",
            Level::Error => "ERROR",
        }
    }

    /// See [`spec_rank`].
    pub fn rank(self) -> (r: u8)
        ensures
            r == spec_rank(self),
    {
        match self {
            Level::Debug => 0,
            Level::Info => 1,
            Level::Warn => 2,
            Level::Error => 3,
        }
    }
}

/// Whether a logger set to `threshold` keeps a message of `level`: it
/// drops exactly the levels below its own.
pub fn accepts(threshold: Level, level: Level) -> (r: bool)
    ensures
        r == (spec_rank(level) >= spec_rank(threshold)),
{
    level.rank() >= threshold.rank()
}

/// The log line of `message` at `level`, stamped with `timestamp`.
pub fn format_line(timestamp: &str, level: Level, message: &str) -> (r: String)
    ensures
        r@ == timestamp@ + " ["@ + spec_level_name(level) + "] "@ + message@,
{
    let mut s = String::from_str(timestamp);
    s.append(" [");
    s.append(level.as_str());
    s.append("] ");
    s.append(message);
    s
}

} // verus!
