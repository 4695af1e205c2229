//! Information-flow control over a dataset store: a label lattice, a
//! provenance forest with cascading revocation, and the decision logic of
//! a per-dataset policy runtime.

pub mod config;
pub mod dynamic_exec;
pub mod error;
pub mod file_system;
pub mod forest;
pub mod lattice;
pub mod lineage;
pub mod metadata;
pub mod paths;
pub mod pattern;
pub mod permission;
pub mod program;
pub mod record;
pub mod render;
pub mod socket;
pub mod table;
pub mod text;
pub mod toml_value;
