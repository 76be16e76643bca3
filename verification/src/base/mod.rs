//! Types that every other module builds on.
pub mod backend;
pub mod dtype;
pub mod error;
pub mod numeric;
pub mod model_config;
pub mod program;
pub mod tensor;
pub mod text;
pub mod text_laws;
pub mod turboquant;
pub mod random_laws;
pub mod keys;
pub mod env_config;
pub mod env_laws;
pub mod table;
pub mod tally;
pub mod dataflow;
pub mod size_laws;
