//! The supported package managers: which binary runs a script, with which
//! arguments, and how a project's files decide which manager is in use.

use vstd::prelude::*;
use crate::strutil::str_eq;
use crate::strutil::spec_trim;
use crate::strutil::trim;

verus! {

/// A package manager the runner can drive.
#[derive(Debug, Clone, Copy, PartialEq, Eq, Structural)]
pub enum PackageManager {
    Bun,
    Pnpm,
    Yarn,
    Npm,
}

impl PackageManager {
    /// The manager's CLI binary name.
    pub open spec fn spec_command_name(self) -> Seq<char> {
        match self {
            PackageManager::Bun => "bun"@,
            PackageManager::Pnpm => "pnpm"@,
            PackageManager::Yarn => "yarn"@,
            PackageManager::Npm => "npm"@,
        }
    }

    /// Arguments to pass after the binary name to run a script: every manager
    /// but yarn takes a `run` verb first.
    pub fn run_args<'a>(&self, script_name: &'a str) -> (r: Vec<&'a str>)
        ensures
            *self == PackageManager::Yarn ==> r@.len() == 1 && r@[0]@ == script_name@,
            *self != PackageManager::Yarn ==> r@.len() == 2 && r@[0]@ == "run"@ && r@[1]@
                == script_name@,
    {
        match self {
            PackageManager::Yarn => {
                let mut v: Vec<&'a str> = Vec::new();
                v.push(script_name);
                v
            },
            _ => {
                let mut v: Vec<&'a str> = Vec::new();
                v.push("run");
                v.push(script_name);
                v
            },
        }
    }

    /// The CLI binary name for this package manager.
    pub fn command_name(&self) -> (r: &str)
        ensures
            r@ == self.spec_command_name(),
    {
        match self {
            PackageManager::Bun => "bun",
            PackageManager::Pnpm => "pnpm",
            PackageManager::Yarn => "yarn",
            PackageManager::Npm => "npm",
        }
    }
}

/// The name before the first `@` of a manifest's manager field, trimmed.
pub open spec fn spec_field_head(s: Seq<char>) -> Seq<char> {
    spec_trim(s.take(first_at(s)))
}

/// The position of the first `@`, or the length when there is none.
pub open spec fn first_at(s: Seq<char>) -> int
    decreases s.len(),
{
    if s.len() == 0 {
        0
    } else if s[0] == '@' {
        0
    } else {
        1 + first_at(s.drop_first())
    }
}

/// The manager a manifest's `packageManager` field names, if any: the part
/// before the first `@`, trimmed, must be a known manager name.
pub open spec fn spec_manager_of_field(s: Seq<char>) -> Option<PackageManager> {
    let head = spec_field_head(s);
    if head == "bun"@ {
        Some(PackageManager::Bun)
    } else if head == "pnpm"@ {
        Some(PackageManager::Pnpm)
    } else if head == "yarn"@ {
        Some(PackageManager::Yarn)
    } else if head == "npm"@ {
        Some(PackageManager::Npm)
    } else {
        None
    }
}

/// Reads a manifest's `packageManager` field (`name@version` or `name`).
pub fn parse_package_manager_field(field: &str) -> (r: Option<PackageManager>)
    ensures
        r == spec_manager_of_field(field@),
{
    let cut = scan_first_at(field);
    let head_raw = field.substring_char(0, cut);
    let head = trim(head_raw);
    let r = if str_eq(head.as_str(), "bun") {
        Some(PackageManager::Bun)
    } else if str_eq(head.as_str(), "pnpm") {
        Some(PackageManager::Pnpm)
    } else if str_eq(head.as_str(), "yarn") {
        Some(PackageManager::Yarn)
    } else if str_eq(head.as_str(), "npm") {
        Some(PackageManager::Npm)
    } else {
        None
    };
    r
}

/// The position of the first `@`, or the length.
fn scan_first_at(field: &str) -> (cut: usize)
    ensures
        cut as int == first_at(field@),
        cut <= field@.len(),
{
    let len = field.unicode_len();
    let mut cut: usize = 0;
    loop
        invariant
            len == field@.len(),
            cut <= len,
            forall|j: int| 0 <= j < cut ==> field@[j] != '@',
        decreases len - cut,
    {
        if cut >= len {
            proof {
                lemma_first_at_is_first(field@, cut as int);
            }
            return cut;
        }
        if field.get_char(cut) == '@' {
            proof {
                lemma_first_at_is_first(field@, cut as int);
            }
            return cut;
        }
        cut = cut + 1;
    }
}

/// `first_at` names the position of the earliest `@`, or the length.
proof fn lemma_first_at(s: Seq<char>)
    ensures
        0 <= first_at(s) <= s.len(),
        first_at(s) < s.len() ==> s[first_at(s)] == '@',
        forall|j: int| 0 <= j < first_at(s) ==> s[j] != '@',
    decreases s.len(),
{
    if s.len() > 0 && s[0] != '@' {
        lemma_first_at(s.drop_first());
        assert forall|j: int| 0 <= j < first_at(s) implies s[j] != '@' by {
            if j > 0 {
                assert(s.drop_first()[j - 1] == s[j]);
            }
        }
    }
}

/// A position with `@` (or the end), before which no `@` occurs, is
/// `first_at`.
proof fn lemma_first_at_is_first(s: Seq<char>, cut: int)
    requires
        0 <= cut <= s.len(),
        cut < s.len() ==> s[cut] == '@',
        forall|j: int| 0 <= j < cut ==> s[j] != '@',
    ensures
        first_at(s) == cut,
{
    lemma_first_at(s);
    if first_at(s) < cut {
        assert(s[first_at(s)] != '@');
    } else if first_at(s) > cut {
        assert(s[cut] != '@');
    }
}

/// Which package manager a project uses, from what is on disk: lockfiles in
/// priority order (bun, pnpm, yarn, npm), then the manifest's
/// `packageManager` field, then npm.
pub open spec fn spec_detected_manager(
    has_bun_lockb: bool,
    has_bun_lock: bool,
    has_pnpm_lock: bool,
    has_yarn_lock: bool,
    has_npm_lock: bool,
    manager_field: Option<Seq<char>>,
) -> PackageManager {
    if has_bun_lockb || has_bun_lock {
        PackageManager::Bun
    } else if has_pnpm_lock {
        PackageManager::Pnpm
    } else if has_yarn_lock {
        PackageManager::Yarn
    } else if has_npm_lock {
        PackageManager::Npm
    } else {
        match manager_field {
            Option::Some(f) => match spec_manager_of_field(f) {
                Option::Some(pm) => pm,
                Option::None => PackageManager::Npm,
            },
            Option::None => PackageManager::Npm,
        }
    }
}

/// Decides the package manager from the presence of each lockfile and the
/// manifest's `packageManager` field, as found beside the project root.
pub fn detect_package_manager(
    has_bun_lockb: bool,
    has_bun_lock: bool,
    has_pnpm_lock: bool,
    has_yarn_lock: bool,
    has_npm_lock: bool,
    manager_field: Option<&str>,
) -> (r: PackageManager)
    ensures
        r == spec_detected_manager(
            has_bun_lockb,
            has_bun_lock,
            has_pnpm_lock,
            has_yarn_lock,
            has_npm_lock,
            match manager_field {
                Option::Some(f) => Some(f@),
                Option::None => None::<Seq<char>>,
            },
        ),
{
    if has_bun_lockb || has_bun_lock {
        PackageManager::Bun
    } else if has_pnpm_lock {
        PackageManager::Pnpm
    } else if has_yarn_lock {
        PackageManager::Yarn
    } else if has_npm_lock {
        PackageManager::Npm
    } else {
        match manager_field {
            Some(f) => match parse_package_manager_field(f) {
                Some(pm) => pm,
                None => PackageManager::Npm,
            },
            None => PackageManager::Npm,
        }
    }
}

} // verus!
