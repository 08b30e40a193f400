//! The command line a reader gives.
use vstd::prelude::*;

verus! {

/// Parsed command-line arguments.
pub struct Cli {
    pub command: Option<Commands>,
    /// Skip the startup banner animation.
    pub no_banner: bool,
}

/// The subcommands.
pub enum Commands {
    /// Read a verse, a range or a chapter (e.g. "Genesis 1:1", "Exodus 3", "Deut 6:4-9").
    Read { reference: Vec<String>, translation: String },
    /// Search for a phrase or keyword.
    Search { query: Vec<String>, translation: String },
    /// Display a random verse.
    Random { translation: String },
    /// Show today's verse.
    Today { translation: String },
    /// Replay the startup animation.
    Intro,
    /// Update the program to the latest version.
    Update { check: bool },
}

} // verus!
