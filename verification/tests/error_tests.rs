use tcops::error::{InputError, SolverError, SolverErrorKind};
use tcops::solution::SolutionStatus;

#[test]
fn test_solver_error_kind_display() {
    assert_eq!(SolverErrorKind::Solver.to_string(), "Solver");
    assert_eq!(SolverErrorKind::Parser.to_string(), "Parser");
    assert_eq!(SolverErrorKind::Unknown.to_string(), "Unknown");
}

#[test]
fn test_solver_error_new_and_display() {
    let err = SolverError::new(SolverErrorKind::Parser, "Failed to parse file");
    assert_eq!(err.kind, SolverErrorKind::Parser);
    assert_eq!(err.message, "Failed to parse file");
    assert_eq!(err.to_string(), "Failed to parse file");
}

#[test]
fn test_solution_status_display() {
    assert_eq!(SolutionStatus::Optimal.to_string(), "Optimal");
    assert_eq!(SolutionStatus::Feasible.to_string(), "Feasible");
    assert_eq!(SolutionStatus::TimeLimit.to_string(), "Time Limit");
    assert_eq!(SolutionStatus::IterationLimit.to_string(), "Iteration Limit");
    assert_eq!(SolutionStatus::Unknown.to_string(), "Unknown");
    assert_eq!(SolutionStatus::default(), SolutionStatus::Unknown);
}

#[test]
fn input_error_shows_its_message() {
    let err = InputError::new("Unknown section X".to_string());
    assert_eq!(err.to_string(), "Unknown section X");
}
