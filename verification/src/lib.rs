//! Frecency-weighted fuzzy path ranking.
//!
//! The library keeps a persisted ledger of visit scores per directory
//! (`cache`), scores abbreviated queries against candidate paths
//! (`cmd::search`), and selects the best-ranked candidate. All I/O, CLI
//! parsing and shell integration live outside the library.

use vstd::prelude::*;

pub mod cache;
pub mod cmd;
pub mod decimal;
pub mod project;
pub mod strings;

verus! {

/// One query token scored against one path segment must stay within `i32`;
/// bounding the query length keeps every accumulated score in range.
pub const MAX_QUERY_LEN: usize = 40000;

/// The subcommands the tool offers.
pub enum Command {
    /// Creates a shell script to use in your project.
    Setup(cmd::setup::Opts),
    /// Search for a project in root directory.
    Search(cmd::search::Opts),
    /// Clone a project
    Clone(cmd::clone::Opts),
    /// Adds a path to the cache
    Add(cmd::add::Opts),
}

} // verus!
