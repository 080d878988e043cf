use vstd::prelude::*;

verus! {

/// Severity of a log record. The order, from least to most severe, is
/// `Debug < Info < Warn < Error`; `severity` gives the numeric rank that
/// contracts compare by.
#[derive(Debug, Clone, Copy, PartialEq, Eq, Hash, PartialOrd, Ord, Structural)]
pub enum LogLevel {
    Debug,
    Info,
    Warn,
    Error,
}

/// Numeric rank of a severity: `Debug` is 0, `Info` 1, `Warn` 2, `Error` 3.
pub open spec fn severity(l: LogLevel) -> int {
    match l {
        LogLevel::Debug => 0,
        LogLevel::Info => 1,
        LogLevel::Warn => 2,
        LogLevel::Error => 3,
    }
}

impl LogLevel {
    /// Rank of this severity as an executable value, equal to `severity`.
    pub fn rank(&self) -> (r: u8)
        ensures
            r as int == severity(*self),
    {
        match self {
            LogLevel::Debug => 0,
            LogLevel::Info => 1,
            LogLevel::Warn => 2,
            LogLevel::Error => 3,
        }
    }

    /// The tag under which this severity is displayed.
    pub fn as_str(&self) -> (r: &'static str)
        ensures
            r@ == spec_level_str(*self),
    {
        match self {
            LogLevel::Error => "ERROR",
            LogLevel::Warn => "WARN",
            LogLevel::Info => "INFO",
            LogLevel::Debug => "DEBUG",
        }
    }
}

/// The display tag of a severity, as `as_str` returns it.
pub open spec fn spec_level_str(l: LogLevel) -> Seq<char> {
    match l {
        LogLevel::Error => "ERROR"@,
        LogLevel::Warn => "WARN"@,
        LogLevel::Info => "INFO"@,
        LogLevel::Debug => "DEBUG"@,
    }
}

impl Default for LogLevel {
    /// The default severity is `Info`.
    fn default() -> (r: Self)
        ensures
            r == LogLevel::Info,
    {
        LogLevel::Info
    }
}

/// How timestamps are rendered in a record's display line.
#[derive(Debug, Clone, Copy, PartialEq, Eq, Structural)]
pub enum TimeFormat {
    Utc,
    LocalTime,
    Hide,
}

/// Whether timestamps are rendered with whole seconds or with milliseconds.
#[derive(Debug, Clone, Copy, PartialEq, Eq, Structural)]
pub enum TimePrecision {
    Seconds,
    Milliseconds,
}

} // verus!
