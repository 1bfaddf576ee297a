//! Reconciles the dependency declarations of a project and its vendored
//! packages into one consistent set, reporting conflicts with full
//! provenance.

pub mod intervals;
pub mod shared;
pub mod text;
pub mod utils;
pub mod vendoring;
pub mod version;

use vstd::prelude::*;

verus! {

/// Context shared by the command-line operations: whether to skip
/// confirmation prompts, and the project root directory.
pub struct CmdContext {
    pub yes: bool,
    pub root: String,
}

/// Drops the first component of a pair, keeping the payload.
pub fn discard_input<I, T>(pair: (I, T)) -> (r: T)
    ensures
        r == pair.1,
{
    pair.1
}

} // verus!
