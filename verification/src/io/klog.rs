use vstd::prelude::*;

verus! {

/// How much the kernel logs; a message is shown when its level is at most the current one.
#[derive(PartialEq, Eq, Structural, Clone, Copy, Debug)]
pub enum LogLevel {
    Trace,
    Debug,
    Info,
    Warn,
    Error,
}

impl LogLevel {
    /// The level's number: 5 for `Trace` down to 1 for `Error`.
    pub open spec fn rank(self) -> u8 {
        match self {
            LogLevel::Trace => 5,
            LogLevel::Debug => 4,
            LogLevel::Info => 3,
            LogLevel::Warn => 2,
            LogLevel::Error => 1,
        }
    }

    /// The level's number: 5 for `Trace` down to 1 for `Error`.
    pub fn as_u8(self) -> (r: u8)
        ensures
            r == self.rank(),
    {
        match self {
            LogLevel::Trace => 5,
            LogLevel::Debug => 4,
            LogLevel::Info => 3,
            LogLevel::Warn => 2,
            LogLevel::Error => 1,
        }
    }

    /// The level with number `v`, if there is one.
    pub fn from_u8(v: u8) -> (r: Option<LogLevel>)
        ensures
            r matches Some(l) ==> l.rank() == v,
            r is None <==> (v < 1 || v > 5),
    {
        match v {
            5 => Some(LogLevel::Trace),
            4 => Some(LogLevel::Debug),
            3 => Some(LogLevel::Info),
            2 => Some(LogLevel::Warn),
            1 => Some(LogLevel::Error),
            _ => None,
        }
    }
}

/// The kernel's log level, as the number of a level.
pub struct KLog {
    level: u8,
}

impl KLog {
    /// The current level.
    pub closed spec fn level(&self) -> LogLevel {
        match self.level {
            5 => LogLevel::Trace,
            4 => LogLevel::Debug,
            2 => LogLevel::Warn,
            1 => LogLevel::Error,
            _ => LogLevel::Info,
        }
    }

    #[verifier::type_invariant]
    closed spec fn inv(self) -> bool {
        1 <= self.level <= 5
    }

    /// A log at level `Info`.
    pub fn new() -> (r: Self)
        ensures
            r.level() == LogLevel::Info,
    {
        KLog { level: 3 }
    }
}

/// Sets the log level.
pub fn set_loglevel(log: &mut KLog, level: LogLevel)
    ensures
        final(log).level() == level,
{
    log.level = level.as_u8();
}

/// The log level.
pub fn get_loglevel(log: &KLog) -> (r: LogLevel)
    ensures
        r == log.level(),
{
    proof {
        use_type_invariant(log);
    }
    match LogLevel::from_u8(log.level) {
        Some(l) => l,
        None => vstd::pervasive::unreached(),
    }
}

/// A message at level `msg` is shown when the current level is `current`.
pub fn enabled(current: LogLevel, msg: LogLevel) -> (r: bool)
    ensures
        r == (current.rank() >= msg.rank()),
{
    current.as_u8() >= msg.as_u8()
}

/// A message shown at one level is shown at every higher level.
pub proof fn lemma_enabled_monotone(current: LogLevel, higher: LogLevel, msg: LogLevel)
    requires
        current.rank() >= msg.rank(),
        higher.rank() >= current.rank(),
    ensures
        higher.rank() >= msg.rank(),
{
}

} // verus!
