//! How much is logged.

use vstd::prelude::*;

verus! {

/// The least important messages that are logged.
#[derive(Clone, Copy, Debug, PartialEq, Eq, Structural)]
pub enum LogLevel {
    Error,
    Warn,
    Info,
    Debug,
    Trace,
}

impl LogLevel {
    /// How many kinds of messages are logged.
    pub open spec fn rank(self) -> int {
        match self {
            LogLevel::Error => 1,
            LogLevel::Warn => 2,
            LogLevel::Info => 3,
            LogLevel::Debug => 4,
            LogLevel::Trace => 5,
        }
    }
}

/// The log level of the program, for a count of `-v` flags.
pub open spec fn level_for(verbose: int) -> LogLevel {
    if verbose <= 0 {
        LogLevel::Warn
    } else if verbose == 1 {
        LogLevel::Info
    } else if verbose == 2 {
        LogLevel::Debug
    } else {
        LogLevel::Trace
    }
}

/// The log level of the libraries that run the model, for a count of `-v`
/// flags.
pub open spec fn runtime_level_for(verbose: int) -> LogLevel {
    if verbose <= 3 {
        LogLevel::Error
    } else {
        level_for(verbose - 3)
    }
}

/// Without a flag the program warns, and every flag adds one kind of messages
/// until there is none to add. The libraries that run the model report errors
/// alone until the program logs everything, and then follow it three flags
/// behind.
pub proof fn law_flags_add_messages(verbose: int)
    requires
        0 <= verbose,
    ensures
        level_for(0) is Warn,
        level_for(verbose).rank() < 5 ==> level_for(verbose + 1).rank() == level_for(verbose).rank()
            + 1,
        level_for(verbose) is Trace ==> level_for(verbose + 1) is Trace,
        verbose <= 3 ==> runtime_level_for(verbose) is Error,
        verbose > 0 ==> runtime_level_for(verbose + 3) == level_for(verbose),
{
}

/// The log level of the program, for a count of `-v` flags.
pub fn log_level(verbose: u8) -> (level: LogLevel)
    ensures
        level == level_for(verbose as int),
        level == if verbose == 0 {
            LogLevel::Warn
        } else if verbose == 1 {
            LogLevel::Info
        } else if verbose == 2 {
            LogLevel::Debug
        } else {
            LogLevel::Trace
        },
{
    match verbose {
        0 => LogLevel::Warn,
        1 => LogLevel::Info,
        2 => LogLevel::Debug,
        _ => LogLevel::Trace,
    }
}

/// The log level of the libraries that run the model, for a count of `-v`
/// flags.
pub fn runtime_log_level(verbose: u8) -> (level: LogLevel)
    ensures
        level == runtime_level_for(verbose as int),
        level == if verbose <= 3 {
            LogLevel::Error
        } else if verbose == 4 {
            LogLevel::Info
        } else if verbose == 5 {
            LogLevel::Debug
        } else {
            LogLevel::Trace
        },
{
    match verbose {
        0..=3 => LogLevel::Error,
        4 => LogLevel::Info,
        5 => LogLevel::Debug,
        _ => LogLevel::Trace,
    }
}

} // verus!
