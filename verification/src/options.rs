//! What a user can configure.

use vstd::prelude::*;
use vstd::string::StringExecFns;

verus! {

/// The line width that a commit message trailer is wrapped to.
pub const LINE_WIDTH: usize = 72;

/// User configuration to affect the behaviour.
pub struct Options {
    /// Prefix used in tags to link the test case to an item.
    pub test_prefix: String,
}

impl Default for Options {
    fn default() -> (options: Self)
        ensures
            options.test_prefix@ == "tc:"@,
    {
        Options { test_prefix: String::from_str("tc:") }
    }
}

} // verus!
