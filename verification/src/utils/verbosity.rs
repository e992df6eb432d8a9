use vstd::prelude::*;

verus! {

/// How much is logged, from nothing to everything.
#[derive(Clone, Copy, Debug, PartialEq, Eq, Structural)]
pub enum FilterLevel {
    Off,
    Error,
    Warn,
    Info,
    Debug,
    Trace,
}

/// The level at a place of the scale that runs from `Off`, at 0 and below,
/// to `Trace`, at 5 and above.
pub open spec fn level_at(place: int) -> FilterLevel {
    if place <= 0 {
        FilterLevel::Off
    } else if place == 1 {
        FilterLevel::Error
    } else if place == 2 {
        FilterLevel::Warn
    } else if place == 3 {
        FilterLevel::Info
    } else if place == 4 {
        FilterLevel::Debug
    } else {
        FilterLevel::Trace
    }
}

/// How often more and how often less logging was asked for.
#[derive(Clone, Copy, Debug, PartialEq, Eq, Structural)]
pub struct Verbosity {
    pub verbose: u8,
    pub quiet: u8,
}

impl Verbosity {
    /// The level of logging: warnings and worse where nothing was asked
    /// for, one level more for each `verbose` and one less for each `quiet`.
    pub fn get_filter_level(&self) -> (level: FilterLevel)
        ensures
            level == level_at(2 + self.verbose - self.quiet),
    {
        let place: i32 = 2 + self.verbose as i32 - self.quiet as i32;
        if place <= 0 {
            FilterLevel::Off
        } else if place == 1 {
            FilterLevel::Error
        } else if place == 2 {
            FilterLevel::Warn
        } else if place == 3 {
            FilterLevel::Info
        } else if place == 4 {
            FilterLevel::Debug
        } else {
            FilterLevel::Trace
        }
    }
}

} // verus!
