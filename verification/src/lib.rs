//! A desktop application launcher library.
//!
//! Desktop entry files (the INI-like launcher definitions installed under the
//! usual application directories) are decoded into structured records, the
//! records of several sources are aggregated, and a launch request is resolved
//! to the argument vector of the process to start.

pub mod apps;
pub mod cli;
pub mod decode;
pub mod launch;
pub mod laws;
pub mod text;
