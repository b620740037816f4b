//! The commands of the ledger's command line, as plain data.
use vstd::prelude::*;

verus! {

/// How finely the day view splits an hour.
#[derive(Debug, Clone, Copy, PartialEq, Eq, Structural)]
pub enum DayResolution {
    Hour,
    HalfHour,
    ThirdHour,
    QuarterHour,
    TenMinutes,
    FiveMinutes,
    TwoMinutes,
    Minute,
}

/// The number of slots an hour is split into.
pub open spec fn slots_per_hour(r: DayResolution) -> u16 {
    match r {
        DayResolution::Hour => 1,
        DayResolution::HalfHour => 2,
        DayResolution::ThirdHour => 3,
        DayResolution::QuarterHour => 4,
        DayResolution::TenMinutes => 6,
        DayResolution::FiveMinutes => 12,
        DayResolution::TwoMinutes => 30,
        DayResolution::Minute => 60,
    }
}

impl DayResolution {
    /// The number of slots an hour is split into.
    pub fn as_hour_fraction(&self) -> (r: u16)
        ensures
            r == slots_per_hour(*self),
            1 <= r <= 60,
    {
        match self {
            DayResolution::Hour => 1,
            DayResolution::HalfHour => 2,
            DayResolution::ThirdHour => 3,
            DayResolution::QuarterHour => 4,
            DayResolution::TenMinutes => 6,
            DayResolution::FiveMinutes => 12,
            DayResolution::TwoMinutes => 30,
            DayResolution::Minute => 60,
        }
    }
}

/// A command. Days are counted from 1970-01-01.
#[derive(Debug, Clone, PartialEq, Eq)]
pub enum Action {
    /// Start a session, with an optional comment.
    In { comment: Option<String> },
    /// End the current session, with an optional comment.
    Out { comment: Option<String> },
    /// Whether a session is open.
    Status,
    /// Print the ledger.
    Dump,
    /// Edit the ledger.
    Edit,
    /// Time totals, for one day or overall.
    Stats { day: Option<i64> },
    /// One line per day over a range of days.
    Calendar { from: Option<i64>, to: Option<i64>, width: usize },
    /// Take back the most recent timestamp.
    Undo,
    /// The slots of one day.
    Day { date: Option<i64>, resolution: DayResolution },
}

/// The command line: the command (status by default), whether to set up a
/// ledger first, an offset from UTC in hours, and whether to skip hooks.
#[derive(Debug, Clone, PartialEq, Eq)]
pub struct Base {
    pub action: Option<Action>,
    pub init: bool,
    pub offset: Option<i32>,
    pub skip_hooks: bool,
}

} // verus!
