//! What the relay is started with: a port and how much it logs.

use vstd::prelude::*;

verus! {

/// The port the relay listens on unless it is told another.
pub const DEFAULT_PORT: u16 = 6969;

/// How much the relay logs.
#[derive(Debug, Clone, Copy, PartialEq, Eq, Structural)]
pub enum LogLevel {
    Info,
    Debug,
    Trace,
}

/// What the relay is started with.
#[derive(Debug, Clone, Copy, PartialEq, Eq, Structural)]
pub struct Config {
    /// The port to listen on.
    pub port: u16,
    /// How much to log.
    pub log_level: LogLevel,
}

/// The level for the number of times that more detail was asked for: none
/// is `Info`, once is `Debug`, more is `Trace`.
pub open spec fn spec_log_level(verbosity: u8) -> LogLevel {
    if verbosity == 0 {
        LogLevel::Info
    } else if verbosity == 1 {
        LogLevel::Debug
    } else {
        LogLevel::Trace
    }
}

/// The level for the number of times that more detail was asked for.
pub fn log_level(verbosity: u8) -> (level: LogLevel)
    ensures
        level == spec_log_level(verbosity),
{
    if verbosity == 0 {
        LogLevel::Info
    } else if verbosity == 1 {
        LogLevel::Debug
    } else {
        LogLevel::Trace
    }
}

impl Config {
    /// The configuration for a port, if one was given and understood, and a
    /// verbosity. Without a port the relay listens on `DEFAULT_PORT`.
    pub fn new(port: Option<u16>, verbosity: u8) -> (config: Config)
        ensures
            config.port == match port {
                Some(p) => p,
                None => DEFAULT_PORT,
            },
            config.log_level == spec_log_level(verbosity),
    {
        let port: u16 = match port {
            Some(p) => p,
            None => DEFAULT_PORT,
        };
        Config { port, log_level: log_level(verbosity) }
    }
}

} // verus!
