//! A script's remembered run configuration: its extra arguments and when they
//! were last used.

use vstd::prelude::*;

verus! {

/// The remembered configuration of one script.
pub struct ScriptConfig {
    /// The extra argument string last confirmed for the script.
    pub args: String,
    /// When the configuration was last used, in seconds since the Unix epoch
    /// (the resolution the stored form keeps).
    pub last_used: u64,
}

impl ScriptConfig {
    /// A configuration used at the given time.
    pub fn new(args: String, last_used: u64) -> (c: ScriptConfig)
        ensures
            c.args@ == args@,
            c.last_used == last_used,
    {
        ScriptConfig { args, last_used }
    }
}

} // verus!
