//! The run options of the solver engine.
use vstd::prelude::*;

verus! {

/// The options of a run: the instance file, the algorithm and its limits,
/// and what to do with the result.
#[derive(Debug, Clone)]
pub struct Cli {
    pub input: String,
    pub mode: SolverMode,
    pub library: Option<LibraryType>,
    pub max_iterations: usize,
    pub max_shaking_intensity: usize,
    pub show: bool,
    pub save: bool,
    pub time_limit: Option<u64>,
    pub folder_result: String,
    pub custom_result_name: Option<String>,
    pub gurobi_params_file: Option<String>,
}

/// The algorithm of a run.
#[derive(Debug, Clone, Copy, PartialEq, Eq, Structural)]
pub enum SolverMode {
    Exact,
    Heuristic,
}

/// The mathematical library behind the exact algorithm.
#[derive(Debug, Clone, Copy, PartialEq, Eq, Structural)]
pub enum LibraryType {
    Gurobi,
}

/// The solver behind a generic modelling library.
#[derive(Debug, Clone, Copy, PartialEq, Eq, Structural)]
pub enum ExactSolverType {
    Gurobi,
    Scip,
}

} // verus!
