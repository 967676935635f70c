//! The options of the command-line program.

use vstd::prelude::*;

verus! {

/// What the program is asked to do.
pub struct Arguments {
    /// Where the presentation is written.
    pub output: String,
    /// Whether an existing output file may be overwritten.
    pub force: bool,
    /// Whether to report more of what happens.
    pub verbose: bool,
    /// Whether to report debugging details.
    pub debug: bool,
    /// The notebooks, other files, and directories to read.
    pub input: Vec<String>,
}

} // verus!
