//! Where a project's data lives under the configuration directory: each
//! project gets its own subdirectory, named by its identity string.

use vstd::prelude::*;
use vstd::string::StringExecFns;

verus! {

/// The project-specific data directory: `projects/<project_id>` under the
/// given configuration directory.
pub fn get_project_dir(config_dir: &str, project_id: &str) -> (r: String)
    ensures
        r@ == config_dir@ + "/projects/"@ + project_id@,
{
    let mut out = config_dir.to_owned();
    out.append("/projects/");
    out.append(project_id);
    out
}

} // verus!
