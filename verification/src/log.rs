//! The logging facade's core: severity levels, the filter state, and the
//! line format. The sink that carries lines away implements `Logger`; the
//! caller owns the state and the sink.

use vstd::prelude::*;

verus! {

/// Log severities, least verbose first.
#[derive(Clone, Copy, PartialEq, Eq, Structural, Debug)]
pub enum LogLevel {
    Off,
    Error,
    Warn,
    Info,
    Debug,
    Verbose,
}

/// The numeric severity of a level; higher is more verbose.
pub open spec fn spec_severity(level: LogLevel) -> i32 {
    match level {
        LogLevel::Off => 0,
        LogLevel::Error => 1,
        LogLevel::Warn => 2,
        LogLevel::Info => 3,
        LogLevel::Debug => 4,
        LogLevel::Verbose => 5,
    }
}

impl LogLevel {
    /// The numeric severity of this level.
    pub fn severity(&self) -> (r: i32)
        ensures
            r == spec_severity(*self),
    {
        match self {
            LogLevel::Off => 0,
            LogLevel::Error => 1,
            LogLevel::Warn => 2,
            LogLevel::Info => 3,
            LogLevel::Debug => 4,
            LogLevel::Verbose => 5,
        }
    }

    /// A one-letter label for log lines.
    pub fn label(&self) -> (r: &'static str)
        ensures
            true,
    {
        match self {
            LogLevel::Off => "",
            LogLevel::Error => "E",
            LogLevel::Warn => "W",
            LogLevel::Info => "I",
            LogLevel::Debug => "D",
            LogLevel::Verbose => "V",
        }
    }
}

/// A sink for log lines.
pub trait Logger: Send {
    /// Carries one line at `Verbose`.
    fn verbose(&self, log_str: String);

    /// Carries one line at `Info`.
    fn info(&self, log_str: String);

    /// Carries one line at `Debug`.
    fn debug(&self, log_str: String);

    /// Carries one line at `Warn`.
    fn warn(&self, log_str: String);

    /// Carries one line at `Error`.
    fn error(&self, log_str: String);
}

/// The filter: messages above this severity are dropped. Starts fully
/// verbose.
pub struct LogState {
    level: i32,
}

impl LogState {
    /// The severity threshold held.
    pub closed spec fn level_spec(&self) -> i32 {
        self.level
    }

    /// A filter that lets everything through.
    pub fn new() -> (r: Self)
        ensures
            r.level_spec() == spec_severity(LogLevel::Verbose),
    {
        LogState { level: 5 }
    }
}

/// Sets the filter's threshold.
pub fn set_log_level(state: &mut LogState, level: LogLevel)
    ensures
        final(state).level_spec() == spec_severity(level),
{
    state.level = level.severity();
}

/// The filter's current threshold.
pub fn get_log_level(state: &LogState) -> (r: i32)
    ensures
        r == state.level_spec(),
{
    state.level
}

/// Formats one log line, `[tag] message`, when `level` passes the filter;
/// drops it otherwise. `Off` never produces a line.
pub fn log(state: &LogState, level: LogLevel, tag: &str, message: String) -> (r: Option<String>)
    ensures
        match r {
            Some(line) => {
                &&& state.level_spec() >= spec_severity(level)
                &&& !(level is Off)
                &&& line@ == "["@ + tag@ + "] "@ + message@
            },
            None => state.level_spec() < spec_severity(level) || level is Off,
        },
{
    if get_log_level(state) < level.severity() {
        return None;
    }
    if matches!(level, LogLevel::Off) {
        return None;
    }
    let mut line = "[".to_owned();
    line.append(tag);
    line.append("] ");
    line.append(message.as_str());
    Some(line)
}

} // verus!
