//! Reads the usage export of the Skylark daemon: finds its logs, reads what was appended
//! to them since the last sync, and makes a call row of every record that was not seen
//! before.
//!
//! Everything here is a function of plain values. What comes from the environment or the
//! file system is handed in by the caller.

pub mod adapter;
pub mod call;
pub mod config;
pub mod cost;
pub mod digest;
pub mod digits;
pub mod discovery;
pub mod json;
pub mod laws;
pub mod log_laws;
pub mod ordering;
pub mod parser;
pub mod parser_laws;
pub mod project_laws;
pub mod projects;
pub mod sequence;
pub mod session;
pub mod text;
pub mod text_laws;
