//! Workspace discovery's decisions: which directories a walk may enter, how
//! deep a glob pattern reaches, which pattern values count, and the
//! deterministic order of the discovered packages.

use vstd::prelude::*;
use vstd::seq_lib::group_to_multiset_ensures;
use vstd::multiset::Multiset;
use crate::strutil::lex_le;
use crate::strutil::str_le;
use crate::strutil::str_eq;
use crate::strutil::lemma_lex_le_total;
use crate::strutil::lemma_lex_le_transitive;

verus! {

/// A package found inside a monorepo workspace.
pub struct WorkspacePackage {
    /// The package's name (or its directory name, when the manifest has none).
    pub name: String,
    /// The package directory, relative to the monorepo root.
    pub relative_path: String,
    /// The scripts of the package's manifest, in manifest order.
    pub scripts: Vec<(String, String)>,
}

/// The mathematical content of one discovered package.
pub type PkgModel = (Seq<char>, Seq<char>, Seq<(Seq<char>, Seq<char>)>);

/// The mathematical content of one discovered package.
pub open spec fn pkg_model(p: WorkspacePackage) -> PkgModel {
    (p.name@, p.relative_path@, p.scripts@.map_values(|s: (String, String)| (s.0@, s.1@)))
}

/// The mathematical content of a package list.
pub open spec fn pkgs_model(s: Seq<WorkspacePackage>) -> Seq<PkgModel> {
    s.map_values(|p: WorkspacePackage| pkg_model(p))
}

/// A package list ordered by relative path.
pub open spec fn sorted_by_path(s: Seq<WorkspacePackage>) -> bool {
    forall|j1: int, j2: int|
        0 <= j1 < j2 < s.len() ==> lex_le(
            (#[trigger] s[j1]).relative_path@,
            (#[trigger] s[j2]).relative_path@,
        )
}

/// Sorts the discovered packages by relative path, for deterministic output:
/// ordered result, same packages.
pub fn sort_workspace_packages(pkgs: Vec<WorkspacePackage>) -> (out: Vec<WorkspacePackage>)
    ensures
        sorted_by_path(out@),
        pkgs_model(out@).to_multiset() == pkgs_model(pkgs@).to_multiset(),
{
    broadcast use group_to_multiset_ensures;

    let mut input = pkgs;
    let mut out: Vec<WorkspacePackage> = Vec::new();
    proof {
        assert(pkgs_model(out@).to_multiset().add(pkgs_model(input@).to_multiset()) =~= pkgs_model(
            pkgs@,
        ).to_multiset());
    }
    while input.len() > 0
        invariant
            sorted_by_path(out@),
            pkgs_model(out@).to_multiset().add(pkgs_model(input@).to_multiset()) == pkgs_model(
                pkgs@,
            ).to_multiset(),
        decreases input@.len(),
    {
        broadcast use group_to_multiset_ensures;

        let ghost input0 = input@;
        let k = input.pop().unwrap();
        let mut pos: usize = 0;
        while pos < out.len() && str_le(out[pos].relative_path.as_str(), k.relative_path.as_str())
            invariant
                pos <= out@.len(),
                sorted_by_path(out@),
                forall|j: int|
                    0 <= j < pos ==> lex_le(
                        (#[trigger] out@[j]).relative_path@,
                        k.relative_path@,
                    ),
            decreases out@.len() - pos,
        {
            pos = pos + 1;
        }
        proof {
            if pos < out@.len() {
                lemma_lex_le_total(out@[pos as int].relative_path@, k.relative_path@);
            }
            let newseq = out@.insert(pos as int, k);
            assert forall|j1: int, j2: int| 0 <= j1 < j2 < newseq.len() implies lex_le(
                (#[trigger] newseq[j1]).relative_path@,
                (#[trigger] newseq[j2]).relative_path@,
            ) by {
                if j2 == pos {
                    assert(newseq[j1] == out@[j1]);
                } else if j1 == pos && j2 > pos {
                    assert(newseq[j2] == out@[j2 - 1]);
                    if pos < out@.len() && j2 - 1 > pos {
                        lemma_lex_le_transitive(
                            k.relative_path@,
                            out@[pos as int].relative_path@,
                            out@[j2 - 1].relative_path@,
                        );
                    }
                } else if j1 < pos && j2 > pos {
                    assert(newseq[j1] == out@[j1]);
                    assert(newseq[j2] == out@[j2 - 1]);
                    if j2 - 1 == j1 {
                        lemma_lex_le_transitive(
                            out@[j1].relative_path@,
                            k.relative_path@,
                            out@[j2 - 1].relative_path@,
                        );
                    }
                } else if j1 > pos {
                    assert(newseq[j1] == out@[j1 - 1]);
                    assert(newseq[j2] == out@[j2 - 1]);
                }
            }
            assert(input0 =~= input@.push(k));
            assert(pkgs_model(input0) =~= pkgs_model(input@).push(pkg_model(k)));
            assert(pkgs_model(out@.insert(pos as int, k)) =~= pkgs_model(out@).insert(
                pos as int,
                pkg_model(k),
            ));
            assert(pkgs_model(out@.insert(pos as int, k)).to_multiset().add(
                pkgs_model(input@).to_multiset(),
            ) =~= pkgs_model(out@).to_multiset().add(pkgs_model(input0).to_multiset()));
        }
        out.insert(pos, k);
    }
    proof {
        assert(pkgs_model(input@) =~= Seq::<PkgModel>::empty());
        assert(pkgs_model(input@).to_multiset() =~= Multiset::<PkgModel>::empty());
        assert(pkgs_model(out@).to_multiset().add(Multiset::<PkgModel>::empty()) =~= pkgs_model(
            out@,
        ).to_multiset());
    }
    out
}

/// The number of slashes in a pattern.
pub open spec fn slash_count(s: Seq<char>) -> int
    decreases s.len(),
{
    if s.len() == 0 {
        0
    } else if s[0] == '/' {
        1 + slash_count(s.drop_first())
    } else {
        slash_count(s.drop_first())
    }
}

/// How many directory levels a glob pattern can reach: one more than its
/// slash count.
pub fn glob_max_depth(pattern: &str) -> (r: usize)
    requires
        pattern@.len() < usize::MAX,
    ensures
        r as int == slash_count(pattern@) + 1,
{
    let len = pattern.unicode_len();
    let mut count: usize = 0;
    let mut i: usize = 0;
    proof {
        assert(pattern@.skip(0) =~= pattern@);
    }
    while i < len
        invariant
            len == pattern@.len(),
            i <= len,
            count <= i,
            slash_count(pattern@) == count + slash_count(pattern@.skip(i as int)),
        decreases len - i,
    {
        proof {
            assert(pattern@.skip(i as int)[0] == pattern@[i as int]);
            assert(pattern@.skip(i as int).drop_first() =~= pattern@.skip(i as int + 1));
        }
        if pattern.get_char(i) == '/' {
            count = count + 1;
        }
        i = i + 1;
    }
    proof {
        assert(pattern@.skip(len as int).len() == 0);
    }
    count + 1
}

/// Whether a directory walk skips this directory: hidden directories and the
/// dependency store are never entered.
pub fn should_skip_dir(name: &str) -> (r: bool)
    ensures
        r == ((name@.len() > 0 && name@[0] == '.') || name@ == "node_modules"@),
{
    if name.unicode_len() > 0 && name.get_char(0) == '.' {
        return true;
    }
    str_eq(name, "node_modules")
}

/// The string values among optional pattern items, in order: what remains of
/// a workspace pattern array after dropping its non-string entries.
pub open spec fn spec_kept_strings(s: Seq<Option<Seq<char>>>) -> Seq<Seq<char>>
    decreases s.len(),
{
    if s.len() == 0 {
        Seq::empty()
    } else {
        (match s[0] {
            Option::Some(v) => seq![v],
            Option::None => Seq::<Seq<char>>::empty(),
        }) + spec_kept_strings(s.drop_first())
    }
}

/// The views of optional strings.
pub open spec fn opts_model(s: Seq<Option<String>>) -> Seq<Option<Seq<char>>> {
    s.map_values(
        |o: Option<String>|
            match o {
                Option::Some(v) => Option::Some(v@),
                Option::None => Option::None::<Seq<char>>,
            },
    )
}

/// Keeping one more element extends the kept strings by it, when a string.
proof fn lemma_kept_strings_snoc(s: Seq<Option<Seq<char>>>, i: int)
    requires
        0 <= i < s.len(),
    ensures
        spec_kept_strings(s.take(i + 1)) == spec_kept_strings(s.take(i)) + (match s[i] {
            Option::Some(v) => seq![v],
            Option::None => Seq::<Seq<char>>::empty(),
        }),
    decreases i,
{
    let tail = match s[i] {
        Option::Some(v) => seq![v],
        Option::None => Seq::<Seq<char>>::empty(),
    };
    if i == 0 {
        assert(s.take(1) =~= seq![s[0]]);
        assert(s.take(1).drop_first() =~= Seq::<Option<Seq<char>>>::empty());
        assert(s.take(1)[0] == s[0]);
        assert(spec_kept_strings(s.take(0)) =~= Seq::<Seq<char>>::empty());
        assert(spec_kept_strings(s.take(1).drop_first()) =~= Seq::<Seq<char>>::empty());
        assert(spec_kept_strings(s.take(1)) =~= tail);
        assert(spec_kept_strings(s.take(0)) + tail =~= tail);
    } else {
        lemma_kept_strings_snoc(s.drop_first(), i - 1);
        assert(s.take(i + 1).drop_first() =~= s.drop_first().take(i));
        assert(s.take(i).drop_first() =~= s.drop_first().take(i - 1));
        assert(s.take(i + 1)[0] == s[0]);
        assert(s.take(i)[0] == s[0]);
        assert(s.drop_first()[i - 1] == s[i]);
        let head = match s[0] {
            Option::Some(v) => seq![v],
            Option::None => Seq::<Seq<char>>::empty(),
        };
        assert(spec_kept_strings(s.take(i + 1)) =~= head + spec_kept_strings(
            s.drop_first().take(i),
        ));
        assert(spec_kept_strings(s.take(i)) + tail =~= head + (spec_kept_strings(
            s.drop_first().take(i - 1),
        ) + tail));
    }
}

/// Keeps the string values of a pattern array, dropping the rest.
pub fn keep_strings(items: Vec<Option<String>>) -> (r: Vec<String>)
    ensures
        r@.map_values(|v: String| v@) == spec_kept_strings(opts_model(items@)),
{
    let ghost m = opts_model(items@);
    let n = items.len();
    let mut r: Vec<String> = Vec::new();
    let mut i: usize = 0;
    proof {
        assert(r@.map_values(|v: String| v@) =~= spec_kept_strings(m.take(0)));
    }
    while i < n
        invariant
            n == items@.len(),
            m == opts_model(items@),
            m.len() == n,
            i <= n,
            r@.map_values(|v: String| v@) == spec_kept_strings(m.take(i as int)),
        decreases n - i,
    {
        let ghost r0 = r@.map_values(|v: String| v@);
        match &items[i] {
            Some(v) => {
                let s = crate::strutil::clone_str(v);
                r.push(s);
                proof {
                    assert(r@.map_values(|v2: String| v2@) =~= r0 + seq![items@[i as int]->0@]);
                }
            },
            None => {},
        }
        proof {
            lemma_kept_strings_snoc(m, i as int);
            if m[i as int] is None {
                assert(r@.map_values(|v2: String| v2@) =~= spec_kept_strings(m.take(i as int))
                    + Seq::<Seq<char>>::empty());
            }
        }
        i = i + 1;
    }
    proof {
        assert(m.take(n as int) =~= m);
    }
    r
}

} // verus!
