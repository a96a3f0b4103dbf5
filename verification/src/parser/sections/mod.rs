//! The data sections of an instance text.
pub mod cluster;
pub mod common;
pub mod node;
pub mod subgroup;
pub mod vehicle;
pub mod reading;

pub use reading::read_sections;
