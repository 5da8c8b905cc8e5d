//! Logging: the domains and levels of log messages, and the thresholds that
//! decide which messages reach the console and which the callback.

use vstd::prelude::*;

verus! {

/// Logging domains: the subsystems that write log messages.
#[derive(Debug, Clone, Copy, PartialEq, Eq, Structural)]
pub enum Domain {
    Database,
    Query,
    Replicator,
    Network,
}

/// Levels of log messages, from the least important to the most.
#[derive(Debug, Clone, Copy, PartialEq, Eq, Structural)]
pub enum Level {
    Debug,
    Verbose,
    Info,
    Warning,
    Error,
    /// No level: as a threshold it lets no message pass.
    Off,
}

impl Domain {
    /// The number that stands for this domain.
    pub open spec fn spec_code(&self) -> u8 {
        match self {
            Domain::Database => 0u8,
            Domain::Query => 1u8,
            Domain::Replicator => 2u8,
            Domain::Network => 3u8,
        }
    }

    /// The number of this domain.
    pub fn code(&self) -> (c: u8)
        ensures
            c == self.spec_code(),
    {
        match self {
            Domain::Database => 0,
            Domain::Query => 1,
            Domain::Replicator => 2,
            Domain::Network => 3,
        }
    }

    /// Decodes a number: the domain that carries it, or `None` for a number
    /// that no domain carries.
    pub fn from_u8(n: u8) -> (r: Option<Domain>)
        ensures
            r matches Some(d) ==> d.spec_code() == n,
            r is None ==> forall|d: Domain| d.spec_code() != n,
            r is Some <==> n <= 3,
    {
        match n {
            0 => Some(Domain::Database),
            1 => Some(Domain::Query),
            2 => Some(Domain::Replicator),
            3 => Some(Domain::Network),
            _ => None,
        }
    }
}

impl Level {
    /// The number that stands for this level; a more important level has a
    /// greater number.
    pub open spec fn spec_code(&self) -> u8 {
        match self {
            Level::Debug => 0u8,
            Level::Verbose => 1u8,
            Level::Info => 2u8,
            Level::Warning => 3u8,
            Level::Error => 4u8,
            Level::Off => 5u8,
        }
    }

    /// The number of this level.
    pub fn code(&self) -> (c: u8)
        ensures
            c == self.spec_code(),
    {
        match self {
            Level::Debug => 0,
            Level::Verbose => 1,
            Level::Info => 2,
            Level::Warning => 3,
            Level::Error => 4,
            Level::Off => 5,
        }
    }

    /// Decodes a number: the level that carries it, or `None` for a number that
    /// no level carries.
    pub fn from_u8(n: u8) -> (r: Option<Level>)
        ensures
            r matches Some(l) ==> l.spec_code() == n,
            r is None ==> forall|l: Level| l.spec_code() != n,
            r is Some <==> n <= 5,
    {
        match n {
            0 => Some(Level::Debug),
            1 => Some(Level::Verbose),
            2 => Some(Level::Info),
            3 => Some(Level::Warning),
            4 => Some(Level::Error),
            5 => Some(Level::Off),
            _ => None,
        }
    }
}

/// True when a message of the level `level` passes the threshold `threshold`:
/// it is at least as important, and is a message at all.
pub open spec fn passes(level: Level, threshold: Level) -> bool {
    level != Level::Off && level.spec_code() >= threshold.spec_code()
}

/// The thresholds of the two sinks of log messages, the console and the
/// callback, and whether a callback is installed.
#[derive(Debug, Clone, Copy, PartialEq, Eq, Structural)]
pub struct LogSettings {
    /// The threshold of the console.
    pub console_level: Level,
    /// The threshold of the callback.
    pub callback_level: Level,
    /// True while a callback is installed.
    pub has_callback: bool,
}

impl LogSettings {
    /// The settings at the start: both thresholds at `Info`, no callback.
    pub fn new() -> (r: LogSettings)
        ensures
            r == (LogSettings {
                console_level: Level::Info,
                callback_level: Level::Info,
                has_callback: false,
            }),
    {
        LogSettings { console_level: Level::Info, callback_level: Level::Info, has_callback: false }
    }

    /// Sets the threshold of the console.
    pub fn set_console_level(&mut self, level: Level)
        ensures
            *final(self) == (LogSettings { console_level: level, ..*old(self) }),
    {
        self.console_level = level;
    }

    /// Sets the threshold of the callback.
    pub fn set_callback_level(&mut self, level: Level)
        ensures
            *final(self) == (LogSettings { callback_level: level, ..*old(self) }),
    {
        self.callback_level = level;
    }

    /// Records that a callback has been installed, or taken away. The one
    /// installed last is the one that counts.
    pub fn set_callback(&mut self, installed: bool)
        ensures
            *final(self) == (LogSettings { has_callback: installed, ..*old(self) }),
    {
        self.has_callback = installed;
    }

    /// True when a message of the level `level` goes to the console.
    pub fn logs_to_console(&self, level: Level) -> (r: bool)
        ensures
            r == passes(level, self.console_level),
    {
        level.code() != 5 && level.code() >= self.console_level.code()
    }

    /// True when a message of the level `level` goes to the callback: a
    /// callback is installed, and the message passes its threshold.
    pub fn logs_to_callback(&self, level: Level) -> (r: bool)
        ensures
            r == (self.has_callback && passes(level, self.callback_level)),
    {
        self.has_callback && level.code() != 5 && level.code() >= self.callback_level.code()
    }
}

/// The two thresholds work apart: what goes to the console does not depend on
/// the threshold of the callback, and what goes to the callback does not depend
/// on the threshold of the console.
pub proof fn lemma_thresholds_are_independent(a: LogSettings, b: LogSettings, level: Level)
    ensures
        a.console_level == b.console_level ==> passes(level, a.console_level) == passes(
            level,
            b.console_level,
        ),
        a.callback_level == b.callback_level && a.has_callback == b.has_callback ==> (
        a.has_callback && passes(level, a.callback_level)) == (b.has_callback && passes(
            level,
            b.callback_level,
        )),
        passes(level, Level::Off) == false,
{
}

} // verus!
