//! Settings that the library knows by name.

use vstd::prelude::*;
use vstd::std_specs::convert::FromSpecImpl;
use vstd::string::StringExecFns;

verus! {

/// How much is logged.
#[derive(Clone, Copy, Debug, PartialEq, Eq, Structural)]
pub enum LogLevel {
    Info,
    Warn,
    Debug,
    Trace,
    Error,
}

impl Default for LogLevel {
    fn default() -> (r: Self)
        ensures
            r == LogLevel::Info,
    {
        LogLevel::Info
    }
}

impl LogLevel {
    /// The level's name in lowercase.
    pub open spec fn name(self) -> Seq<char> {
        match self {
            LogLevel::Info => "info"@,
            LogLevel::Warn => "warn"@,
            LogLevel::Debug => "debug"@,
            LogLevel::Trace => "trace"@,
            LogLevel::Error => "error"@,
        }
    }

    /// The level's name in lowercase.
    pub fn as_str(&self) -> (r: &'static str)
        ensures
            r@ == self.name(),
    {
        match self {
            LogLevel::Info => "info",
            LogLevel::Warn => "warn",
            LogLevel::Debug => "debug",
            LogLevel::Trace => "trace",
            LogLevel::Error => "error",
        }
    }
}

impl From<LogLevel> for String {
    fn from(level: LogLevel) -> (r: String)
        ensures
            r@ == level.name(),
    {
        String::from_str(level.as_str())
    }
}

impl FromSpecImpl<LogLevel> for String {
    open spec fn obeys_from_spec() -> bool {
        false
    }

    open spec fn from_spec(level: LogLevel) -> String {
        arbitrary()
    }
}

} // verus!
