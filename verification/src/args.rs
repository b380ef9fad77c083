//! Flag values shared with the command line front end.

use vstd::prelude::*;

verus! {

/// A three-valued flag: an explicit yes or no, or a choice deferred to the
/// environment (for instance "color the output only on a terminal").
#[derive(Clone, Copy, Debug, PartialEq, Eq, Structural)]
pub enum TriBool {
    Auto,
    Yes,
    No,
}

/// The tool's command line switches, as plain values. The front end owns a
/// copy of this type carrying the argument-parser derives (which cannot
/// stand here) and converts; everything below the parser speaks of this
/// one.
#[derive(Debug, Clone)]
pub struct Args {
    /// print help information
    pub help: bool,
    /// show the command reference table
    pub commands: bool,
    /// print the version
    pub version: bool,
    /// show all directories, hidden and build output included
    pub all: bool,
    /// whether to have styles and colors
    pub color: TriBool,
    /// use only ASCII characters for table rendering
    pub ascii: bool,
    /// show the process view
    pub processes: bool,
    /// show the directory size analysis
    pub size_on_disk: bool,
    /// scan from the filesystem root
    pub root: bool,
    /// number of results to show ("10", "20", or "all")
    pub limit: String,
    /// subdirectory depth (one level means immediate children)
    pub depth: usize,
    /// scan all nested folders recursively
    pub recursive: bool,
    /// the starting path of a directory scan
    pub path: Option<String>,
}

impl TriBool {
    /// Resolve the flag: `Yes` and `No` decide directly, `Auto` defers to `f`.
    pub fn unwrap_or_else<F: FnOnce() -> bool>(self, f: F) -> (r: bool)
        requires
            self == TriBool::Auto ==> f.requires(()),
        ensures
            self == TriBool::Yes ==> r,
            self == TriBool::No ==> !r,
            self == TriBool::Auto ==> f.ensures((), r),
    {
        match self {
            TriBool::Auto => f(),
            TriBool::Yes => true,
            TriBool::No => false,
        }
    }
}

} // verus!
