//! A leveled logging context: each session holds its own `Logger`
//! instead of sharing process-wide state.
//!
//! The logger only decides and formats: each leveled method returns
//! the prefixed line when the logger's level admits it, and `None`
//! when the message is to be dropped.  The embedding program prints
//! whatever comes back.

use vstd::prelude::*;

verus! {

pub const LEVEL_NONE: i32 = 100;

pub const LEVEL_ERROR: i32 = 2;

pub const LEVEL_WARN: i32 = 1;

pub const LEVEL_INFO: i32 = 0;

pub const LEVEL_DEBUG: i32 = -1;

pub const LEVEL_TRACE: i32 = -2;

pub const LEVEL_DEEP_TRACE: i32 = -3;

pub const LEVEL_VERY_DEEP_TRACE: i32 = -4;

/// What a leveled method returns: the prefixed line when the
/// message's level is within `threshold`, nothing otherwise.
pub open spec fn spec_log(threshold: int, level: int, prefix: Seq<char>, msg: Seq<char>) -> Option<
    Seq<char>,
> {
    if level <= threshold {
        Some(prefix + msg)
    } else {
        None
    }
}

/// A logger with an ambient level; messages above it are dropped.
pub struct Logger {
    level: i32,
}

impl Logger {
    /// The configured level.
    pub closed spec fn spec_level(&self) -> int {
        self.level as int
    }

    /// A logger that keeps messages of level `level` and below.
    pub fn new(level: i32) -> (r: Logger)
        ensures
            r.spec_level() == level as int,
    {
        Logger { level }
    }

    fn log(&self, prefix: &str, msg: &str, level: i32) -> (r: Option<String>)
        ensures
            r.deep_view() == spec_log(self.spec_level(), level as int, prefix@, msg@),
    {
        if level <= self.level {
            Some(String::from_str(prefix).concat(msg))
        } else {
            None
        }
    }

    /// The message as an error line, when errors are kept.
    pub fn error(&self, msg: &str) -> (r: Option<String>)
        ensures
            r.deep_view() == spec_log(self.spec_level(), LEVEL_ERROR as int, "[ERROR]       "@, msg@),
    {
        self.log("[ERROR]       ", msg, LEVEL_ERROR)
    }

    /// The message as a warning line, when warnings are kept.
    pub fn warn(&self, msg: &str) -> (r: Option<String>)
        ensures
            r.deep_view() == spec_log(self.spec_level(), LEVEL_WARN as int, "[WARN]        "@, msg@),
    {
        self.log("[WARN]        ", msg, LEVEL_WARN)
    }

    /// The message as an info line, when info is kept.
    pub fn info(&self, msg: &str) -> (r: Option<String>)
        ensures
            r.deep_view() == spec_log(self.spec_level(), LEVEL_INFO as int, "[INFO]        "@, msg@),
    {
        self.log("[INFO]        ", msg, LEVEL_INFO)
    }

    /// The message as a debug line, when debugging is kept.
    pub fn debug(&self, msg: &str) -> (r: Option<String>)
        ensures
            r.deep_view() == spec_log(self.spec_level(), LEVEL_DEBUG as int, "[DEBUG]       "@, msg@),
    {
        self.log("[DEBUG]       ", msg, LEVEL_DEBUG)
    }

    /// The message as a trace line, when tracing is kept.
    pub fn trace(&self, msg: &str) -> (r: Option<String>)
        ensures
            r.deep_view() == spec_log(self.spec_level(), LEVEL_TRACE as int, "[TRACE]       "@, msg@),
    {
        self.log("[TRACE]       ", msg, LEVEL_TRACE)
    }

    /// The message as a deep-trace line, when deep tracing is kept.
    pub fn deep_trace(&self, msg: &str) -> (r: Option<String>)
        ensures
            r.deep_view() == spec_log(self.spec_level(), LEVEL_DEEP_TRACE as int, "[DEEP_TRACE]  "@, msg@),
    {
        self.log("[DEEP_TRACE]  ", msg, LEVEL_DEEP_TRACE)
    }

    /// The message as a deepest-trace line, when that level is kept.
    pub fn very_deep_trace(&self, msg: &str) -> (r: Option<String>)
        ensures
            r.deep_view() == spec_log(self.spec_level(), LEVEL_VERY_DEEP_TRACE as int, "[V_DEEP_TRACE]"@, msg@),
    {
        self.log("[V_DEEP_TRACE]", msg, LEVEL_VERY_DEEP_TRACE)
    }
}

} // verus!
