//! Plain configuration data handed to the library by the surrounding
//! application, together with the separator validation rule.

use vstd::prelude::*;

verus! {

/// Configuration collected by the surrounding command line layer.
///
/// `files` are the input path strings; `yes` executes without per-item
/// confirmation; `interactive` asks before each rename; `verbose` requests
/// additional detail; `separator` replaces spaces in transliterated stems.
pub struct Args {
    pub files: Vec<String>,
    pub yes: bool,
    pub interactive: bool,
    pub verbose: bool,
    pub separator: char,
}

/// A separator character is acceptable when it is not `/`, not the null
/// character and not `.`: `.` would corrupt extension splitting and the
/// other two would corrupt path semantics.
pub open spec fn separator_ok(c: char) -> bool {
    c != '/' && c != '\u{0}' && c != '.'
}

impl Args {
    /// Decide whether the configured separator may be used at all.
    pub fn separator_is_valid(&self) -> (r: bool)
        ensures
            r == separator_ok(self.separator),
    {
        self.separator != '/' && self.separator != '\u{0}' && self.separator != '.'
    }
}

} // verus!
