//! Project pins: a `.cc-switcher.json` file that binds a directory tree to
//! a configuration.

use vstd::prelude::*;

verus! {

/// What a pin file holds.
pub struct PinConfig {
    /// Name of the pinned configuration.
    pub config: String,
    /// Free description.
    pub description: Option<String>,
}

/// Name of the pin file.
pub const PIN_FILE: &'static str = ".cc-switcher.json";

/// How many levels above the current directory the pin search goes.
pub const MAX_SEARCH_DEPTH: usize = 20;

/// How many directories the pin search examines, out of the
/// `n_ancestors` directories from the current one up to the root: the
/// current directory and at most `MAX_SEARCH_DEPTH` above it.
pub fn pin_search_dirs(n_ancestors: usize) -> (r: usize)
    ensures
        r == if n_ancestors <= MAX_SEARCH_DEPTH + 1 {
            n_ancestors
        } else {
            (MAX_SEARCH_DEPTH + 1) as usize
        },
{
    if n_ancestors <= MAX_SEARCH_DEPTH + 1 {
        n_ancestors
    } else {
        MAX_SEARCH_DEPTH + 1
    }
}

} // verus!
