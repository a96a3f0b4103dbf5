//! Instance reading, validation and the combinatorial parts of the solvers
//! for the Team Clustered Orienteering Problem with Subgroups.
pub mod cli;
pub mod error;
pub mod exporter;
pub mod flow;
pub mod instance;
pub mod model;
pub mod numbers;
pub mod parser;
pub mod printer;
pub mod routes;
pub mod search;
pub mod separation;
pub mod solution;
pub mod text;
