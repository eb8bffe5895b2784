//! An experiment planning engine: a typed field/value model, combinatorial
//! parameter expansion, command-template filling, and a dependency-linking
//! planner that turns a sequence of job declarations into a flat,
//! ID-addressed list of runnable job instances.

pub mod data;
pub mod decimal;
pub mod errors;
pub mod laws;
pub mod plan;
pub mod program;
pub mod smap;
pub mod text;
