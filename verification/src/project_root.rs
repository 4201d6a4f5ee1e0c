//! Project root discovery over the chain of ancestor directories: the nearest
//! one holding a manifest is the project, and at or above it the nearest
//! workspace root, if any, is the monorepo root.

use vstd::prelude::*;
use crate::strutil::clone_str;

verus! {

/// What discovery sees of one ancestor directory. Probes are ordered nearest
/// first: the working directory, then its parent, and so on upward.
pub struct DirProbe {
    /// The directory's path.
    pub path: String,
    /// Whether the directory holds a package manifest.
    pub has_package_json: bool,
    /// Whether the directory is a workspace root: a manifest with a
    /// workspaces field, or a pnpm workspace file.
    pub is_workspace_root: bool,
}

/// Where a project lives.
#[derive(Debug)]
pub struct ProjectRoot {
    /// The nearest directory with a package manifest.
    pub nearest_pkg: String,
    /// The monorepo root at or above it, when there is one.
    pub monorepo_root: Option<String>,
}

/// How project discovery can fail.
#[derive(Debug)]
pub enum ProjectRootError {
    /// No ancestor directory holds a package manifest.
    NotFound,
}

/// The position of the nearest probe with a manifest, or -1.
pub open spec fn first_pkg(probes: Seq<DirProbe>) -> int
    decreases probes.len(),
{
    if probes.len() == 0 {
        -1
    } else if probes[0].has_package_json {
        0
    } else {
        let r = first_pkg(probes.drop_first());
        if r < 0 {
            -1
        } else {
            r + 1
        }
    }
}

/// The position of the nearest workspace root at or after `from`, or -1.
pub open spec fn first_ws_from(probes: Seq<DirProbe>, from: int) -> int
    decreases probes.len() - from,
{
    if from < 0 || from >= probes.len() {
        -1
    } else if probes[from].is_workspace_root {
        from
    } else {
        first_ws_from(probes, from + 1)
    }
}

/// `first_pkg` names the nearest manifest position.
pub proof fn lemma_first_pkg(probes: Seq<DirProbe>)
    ensures
        first_pkg(probes) >= 0 ==> {
            &&& first_pkg(probes) < probes.len()
            &&& probes[first_pkg(probes)].has_package_json
            &&& forall|j: int| 0 <= j < first_pkg(probes) ==> !(#[trigger] probes[j]).has_package_json
        },
        first_pkg(probes) < 0 ==> forall|j: int|
            0 <= j < probes.len() ==> !(#[trigger] probes[j]).has_package_json,
    decreases probes.len(),
{
    if probes.len() == 0 {
    } else if probes[0].has_package_json {
    } else {
        lemma_first_pkg(probes.drop_first());
        assert forall|j: int| 1 <= j < probes.len() implies probes.drop_first()[j - 1] == probes[j] by {}
    }
}

/// `first_ws_from` names the nearest workspace root at or after `from`.
pub proof fn lemma_first_ws_from(probes: Seq<DirProbe>, from: int)
    requires
        0 <= from,
    ensures
        first_ws_from(probes, from) >= 0 ==> {
            &&& from <= first_ws_from(probes, from) < probes.len()
            &&& probes[first_ws_from(probes, from)].is_workspace_root
            &&& forall|j: int|
                from <= j < first_ws_from(probes, from) ==> !(#[trigger] probes[j]).is_workspace_root
        },
        first_ws_from(probes, from) < 0 ==> forall|j: int|
            from <= j < probes.len() ==> !(#[trigger] probes[j]).is_workspace_root,
    decreases probes.len() - from,
{
    if from < probes.len() && !probes[from].is_workspace_root {
        lemma_first_ws_from(probes, from + 1);
    }
}

/// The position of the nearest probe with a manifest.
fn scan_first_pkg(probes: &Vec<DirProbe>) -> (r: Option<usize>)
    ensures
        match r {
            Some(i) => first_pkg(probes@) == i as int && i < probes@.len(),
            None => first_pkg(probes@) < 0,
        },
{
    let n = probes.len();
    let mut i: usize = 0;
    loop
        invariant
            n == probes@.len(),
            i <= n,
            forall|j: int| 0 <= j < i ==> !(#[trigger] probes@[j]).has_package_json,
        decreases n - i,
    {
        if i >= n {
            proof {
                lemma_first_pkg(probes@);
                if first_pkg(probes@) >= 0 {
                    assert(!probes@[first_pkg(probes@)].has_package_json);
                }
            }
            return None;
        }
        if probes[i].has_package_json {
            proof {
                lemma_first_pkg(probes@);
                let p = first_pkg(probes@);
                assert(p == i as int) by {
                    if p < 0 || p > i as int {
                        assert(!probes@[i as int].has_package_json);
                    } else if 0 <= p < i as int {
                        assert(!probes@[p].has_package_json);
                    }
                }
            }
            return Some(i);
        }
        i = i + 1;
    }
}

/// Finds the project root among the ancestor probes: the nearest directory
/// with a manifest, and — when that directory or one above it is a workspace
/// root — the nearest such directory as the monorepo root. With no manifest
/// anywhere, discovery fails.
pub fn find_project_root(probes: &Vec<DirProbe>) -> (r: Result<ProjectRoot, ProjectRootError>)
    ensures
        ({
            let p = first_pkg(probes@);
            match r {
                Result::Ok(root) => {
                    &&& p >= 0
                    &&& root.nearest_pkg@ == probes@[p].path@
                    &&& ({
                        let w = first_ws_from(probes@, p);
                        match root.monorepo_root {
                            Option::Some(m) => w >= 0 && m@ == probes@[w].path@,
                            Option::None => w < 0,
                        }
                    })
                },
                Result::Err(_) => p < 0,
            }
        }),
{
    let n = probes.len();
    let i = match scan_first_pkg(probes) {
        Some(i) => i,
        None => {
            return Err(ProjectRootError::NotFound);
        },
    };
    let nearest = clone_str(&probes[i].path);
    let mut w: usize = i;
    loop
        invariant
            n == probes@.len(),
            i <= w <= n,
            i < n,
            first_pkg(probes@) == i as int,
            nearest@ == probes@[i as int].path@,
            first_ws_from(probes@, i as int) == first_ws_from(probes@, w as int),
        decreases n - w,
    {
        if w >= n {
            proof {
                lemma_first_ws_from(probes@, w as int);
            }
            return Ok(ProjectRoot { nearest_pkg: nearest, monorepo_root: None });
        }
        if probes[w].is_workspace_root {
            let root = clone_str(&probes[w].path);
            return Ok(ProjectRoot { nearest_pkg: nearest, monorepo_root: Some(root) });
        }
        w = w + 1;
    }
}

} // verus!
