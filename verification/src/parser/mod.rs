//! Reading of instance texts.
pub mod header;
pub mod sections;
pub mod utils;
pub mod validator;
pub mod linker;
pub mod load;
