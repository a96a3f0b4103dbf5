//! What a solver run ends in, and the route data that the reports read.
use vstd::prelude::*;

verus! {

/// How a solver run ended.
#[derive(Debug, Clone, Copy, PartialEq, Eq, Structural)]
pub enum SolutionStatus {
    Optimal,
    Feasible,
    TimeLimit,
    IterationLimit,
    Unknown,
}

impl Default for SolutionStatus {
    fn default() -> (s: Self)
        ensures
            s == SolutionStatus::Unknown,
    {
        SolutionStatus::Unknown
    }
}

/// The text under which a status is shown.
pub open spec fn status_text(s: SolutionStatus) -> Seq<char> {
    match s {
        SolutionStatus::Optimal => "Optimal"@,
        SolutionStatus::Feasible => "Feasible"@,
        SolutionStatus::TimeLimit => "Time Limit"@,
        SolutionStatus::IterationLimit => "Iteration Limit"@,
        SolutionStatus::Unknown => "Unknown"@,
    }
}

impl SolutionStatus {
    /// The status as it is shown.
    pub fn to_string(&self) -> (r: String)
        ensures
            r@ == status_text(*self),
    {
        match self {
            SolutionStatus::Optimal => String::from_str("Optimal"),
            SolutionStatus::Feasible => String::from_str("Feasible"),
            SolutionStatus::TimeLimit => String::from_str("Time Limit"),
            SolutionStatus::IterationLimit => String::from_str("Iteration Limit"),
            SolutionStatus::Unknown => String::from_str("Unknown"),
        }
    }
}

} // verus!
