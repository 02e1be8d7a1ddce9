//! Plain argument records for the two subcommands. Command-line parsing
//! lives with the binary; these carry the parsed values into the library.

use vstd::prelude::*;

verus! {

/// Arguments of the affected-projects listing.
pub struct AffectedArgs {
    /// Comma separated list of projects to check.
    pub projects: String,
}

/// Arguments of a run: the command whose result is looked up in the cache
/// and executed on a miss, and the cache variant to use (`"remote"` or,
/// by default, `"local"`).
pub struct RunArgs {
    pub command: String,
    pub cache_type: String,
}

} // verus!
