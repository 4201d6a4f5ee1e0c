//! The remembered environment-file selection, shared across projects.

use vstd::prelude::*;

verus! {

/// Which environment files were last selected, by display name.
pub struct GlobalEnvConfig {
    /// Display names of the last selected files.
    pub last_env_files: Vec<String>,
}

impl Default for GlobalEnvConfig {
    /// No remembered selection.
    fn default() -> (c: GlobalEnvConfig)
        ensures
            c.last_env_files@.len() == 0,
    {
        GlobalEnvConfig { last_env_files: Vec::new() }
    }
}

} // verus!
