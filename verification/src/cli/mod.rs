pub mod config;
pub mod plan;
