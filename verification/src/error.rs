//! Error values of the solvers and of instance reading.
use vstd::prelude::*;

verus! {

/// The stage that produced a solver error.
#[derive(Debug, Clone, Copy, PartialEq, Eq, Structural)]
pub enum SolverErrorKind {
    Solver,
    Parser,
    Unknown,
}

/// The name under which a kind is shown.
pub open spec fn solver_error_kind_name(kind: SolverErrorKind) -> Seq<char> {
    match kind {
        SolverErrorKind::Solver => "Solver"@,
        SolverErrorKind::Parser => "Parser"@,
        SolverErrorKind::Unknown => "Unknown"@,
    }
}

impl SolverErrorKind {
    /// The kind's name, as `Debug` shows it.
    pub fn to_string(&self) -> (s: String)
        ensures
            s@ == solver_error_kind_name(*self),
    {
        match self {
            SolverErrorKind::Solver => String::from_str("Solver"),
            SolverErrorKind::Parser => String::from_str("Parser"),
            SolverErrorKind::Unknown => String::from_str("Unknown"),
        }
    }
}

/// An error of a solver run, with its kind and a message.
pub struct SolverError {
    pub kind: SolverErrorKind,
    pub message: String,
}

impl SolverError {
    pub fn new(kind: SolverErrorKind, message: &str) -> (e: Self)
        ensures
            e.kind == kind,
            e.message@ == message@,
    {
        SolverError { kind, message: String::from_str(message) }
    }

    /// The error as it is shown: its message.
    pub fn to_string(&self) -> (s: String)
        ensures
            s@ == self.message@,
    {
        self.message.clone()
    }
}

/// Invalid data in an instance text, with the message that describes it.
#[derive(Debug)]
pub struct InputError {
    pub message: String,
}

impl InputError {
    pub fn new(message: String) -> (e: Self)
        ensures
            e.message@ == message@,
    {
        InputError { message }
    }

    /// The error as it is shown: its message.
    pub fn to_string(&self) -> (s: String)
        ensures
            s@ == self.message@,
    {
        self.message.clone()
    }
}

/// The message of an outcome, when it is an error.
pub open spec fn outcome<T>(r: Result<T, InputError>) -> Result<T, Seq<char>> {
    match r {
        Ok(v) => Ok(v),
        Err(e) => Err(e.message@),
    }
}

} // verus!
