//! The command line: which directory to scan.
use vstd::prelude::*;

verus! {

/// A terminal client for Bruno collections.
#[derive(Debug)]
pub struct Args {
    /// Root directory to scan for Bruno collections (folders containing bruno.json).
    pub root: String,
}

impl Default for Args {
    /// Without arguments the current directory is scanned.
    fn default() -> (r: Self)
        ensures
            r.root@ == "."@,
    {
        Args { root: ".".to_string() }
    }
}

} // verus!
