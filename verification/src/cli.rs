//! The command-line surface as plain data: the requested application names
//! and the listing flags. Parsing the actual arguments and printing results
//! is presentation and lives with the binary around this library.

use vstd::prelude::*;

verus! {

/// One invocation's requests: applications to launch and sources to list.
#[derive(Debug)]
pub struct Cli {
    /// Applications to launch, by display name.
    pub input: Option<Vec<String>>,
    /// List the user-installed applications.
    pub user: bool,
    /// List the system-installed applications.
    pub system: bool,
    /// List the flatpak-exported applications.
    pub flatpak: bool,
    /// List the applications of every source.
    pub all: bool,
    /// Show details about the listed entries.
    pub details: bool,
    /// Hand the launched application's output through.
    pub output: bool,
}

} // verus!
