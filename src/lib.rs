//! Name-resolution configuration: a total parser for the resolver directive
//! (usually read from the `RUST_NS` environment variable) and the choice
//! between that directive and a caller-supplied default.
pub mod config;
pub mod text;

pub use config::{Config, Route, Std};
