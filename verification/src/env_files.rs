//! Environment files a project offers: the `.env*` files of the package
//! directory and, in a monorepo, of the root directory, each group sorted by
//! name. Package files are shown first and merged last, so they override the
//! root's variables.

use vstd::prelude::*;
use vstd::seq_lib::group_to_multiset_ensures;
use vstd::multiset::Multiset;
use crate::strutil::lex_le;
use crate::strutil::str_le;
use crate::strutil::str_eq;
use crate::strutil::clone_str;
use crate::strutil::lemma_lex_le_total;
use crate::strutil::lemma_lex_le_transitive;
use vstd::string::StringExecFns;

verus! {

/// Where an environment file was found.
pub enum EnvScope {
    /// In the package directory with the given path.
    Package(String),
    /// In the monorepo root with the given path.
    Root(String),
}

/// One environment file.
pub struct EnvFile {
    /// The file's full path.
    pub path: String,
    /// The file name, shown to the user.
    pub display_name: String,
    /// Where the file was found.
    pub scope: EnvScope,
}

/// The environment files of a project, package directory and root kept apart.
pub struct EnvFileList {
    /// Files of the package directory, sorted by name.
    pub package_files: Vec<EnvFile>,
    /// Files of the monorepo root, sorted by name; empty outside a monorepo.
    pub root_files: Vec<EnvFile>,
}

/// The mathematical content of one environment file: path, name, whether it
/// is a root file, and the directory it was found in.
pub type EnvModel = (Seq<char>, Seq<char>, bool, Seq<char>);

/// The mathematical content of one environment file.
pub open spec fn file_model(f: EnvFile) -> EnvModel {
    match f.scope {
        EnvScope::Package(d) => (f.path@, f.display_name@, false, d@),
        EnvScope::Root(d) => (f.path@, f.display_name@, true, d@),
    }
}

/// The mathematical content of a file list.
pub open spec fn files_model(s: Seq<EnvFile>) -> Seq<EnvModel> {
    s.map_values(|f: EnvFile| file_model(f))
}

/// Whether a file name begins with `.env`.
pub open spec fn starts_env(name: Seq<char>) -> bool {
    name.len() >= 4 && name[0] == '.' && name[1] == 'e' && name[2] == 'n' && name[3] == 'v'
}

/// The models of the environment files a directory listing yields: the
/// `.env*`-named entries, each with its path under the directory.
pub open spec fn env_models(dir: Seq<char>, names: Seq<Seq<char>>, is_root: bool) -> Seq<
    EnvModel,
> {
    names.filter(|n: Seq<char>| starts_env(n)).map_values(
        |n: Seq<char>| (dir + "/"@ + n, n, is_root, dir),
    )
}

/// The views of a list of names.
pub open spec fn names_model(s: Seq<String>) -> Seq<Seq<char>> {
    s.map_values(|n: String| n@)
}

/// A file list sorted by display name.
pub open spec fn sorted_by_name(s: Seq<EnvFile>) -> bool {
    forall|j1: int, j2: int|
        0 <= j1 < j2 < s.len() ==> lex_le(
            (#[trigger] s[j1]).display_name@,
            (#[trigger] s[j2]).display_name@,
        )
}

/// Copies one environment file.
fn clone_env_file(f: &EnvFile) -> (r: EnvFile)
    ensures
        r == *f,
{
    let scope = match &f.scope {
        EnvScope::Package(d) => EnvScope::Package(clone_str(d)),
        EnvScope::Root(d) => EnvScope::Root(clone_str(d)),
    };
    let r = EnvFile { path: clone_str(&f.path), display_name: clone_str(&f.display_name), scope };
    proof {
        assert(r.path@ == f.path@);
    }
    r
}

impl EnvFileList {
    /// All files in display order: the package's files, then the root's.
    pub fn all_files(&self) -> (r: Vec<EnvFile>)
        ensures
            r@ == self.package_files@ + self.root_files@,
    {
        let mut r: Vec<EnvFile> = Vec::new();
        let n1 = self.package_files.len();
        let mut i: usize = 0;
        while i < n1
            invariant
                n1 == self.package_files@.len(),
                i <= n1,
                r@ == self.package_files@.take(i as int),
            decreases n1 - i,
        {
            r.push(clone_env_file(&self.package_files[i]));
            proof {
                assert(r@ =~= self.package_files@.take(i as int + 1));
            }
            i = i + 1;
        }
        let n2 = self.root_files.len();
        let mut j: usize = 0;
        proof {
            assert(self.package_files@.take(n1 as int) =~= self.package_files@);
        }
        while j < n2
            invariant
                n2 == self.root_files@.len(),
                j <= n2,
                r@ == self.package_files@ + self.root_files@.take(j as int),
            decreases n2 - j,
        {
            r.push(clone_env_file(&self.root_files[j]));
            proof {
                assert(r@ =~= self.package_files@ + self.root_files@.take(j as int + 1));
            }
            j = j + 1;
        }
        proof {
            assert(self.root_files@.take(n2 as int) =~= self.root_files@);
        }
        r
    }

    /// All files in merge order: the root's files first, then the package's,
    /// so that later (package) files override earlier ones.
    pub fn all_files_merge_order(&self) -> (r: Vec<EnvFile>)
        ensures
            r@ == self.root_files@ + self.package_files@,
    {
        let mut r: Vec<EnvFile> = Vec::new();
        let n1 = self.root_files.len();
        let mut i: usize = 0;
        while i < n1
            invariant
                n1 == self.root_files@.len(),
                i <= n1,
                r@ == self.root_files@.take(i as int),
            decreases n1 - i,
        {
            r.push(clone_env_file(&self.root_files[i]));
            proof {
                assert(r@ =~= self.root_files@.take(i as int + 1));
            }
            i = i + 1;
        }
        let n2 = self.package_files.len();
        let mut j: usize = 0;
        proof {
            assert(self.root_files@.take(n1 as int) =~= self.root_files@);
        }
        while j < n2
            invariant
                n2 == self.package_files@.len(),
                j <= n2,
                r@ == self.root_files@ + self.package_files@.take(j as int),
            decreases n2 - j,
        {
            r.push(clone_env_file(&self.package_files[j]));
            proof {
                assert(r@ =~= self.root_files@ + self.package_files@.take(j as int + 1));
            }
            j = j + 1;
        }
        proof {
            assert(self.package_files@.take(n2 as int) =~= self.package_files@);
        }
        r
    }
}

/// Whether the name begins with `.env`.
fn name_starts_env(name: &str) -> (r: bool)
    ensures
        r == starts_env(name@),
{
    if name.unicode_len() < 4 {
        return false;
    }
    name.get_char(0) == '.' && name.get_char(1) == 'e' && name.get_char(2) == 'n' && name.get_char(
        3,
    ) == 'v'
}

/// Sorts environment files by display name: ordered output, same files.
fn sort_env_files(files: Vec<EnvFile>) -> (out: Vec<EnvFile>)
    ensures
        sorted_by_name(out@),
        files_model(out@).to_multiset() == files_model(files@).to_multiset(),
{
    broadcast use group_to_multiset_ensures;

    let mut input = files;
    let mut out: Vec<EnvFile> = Vec::new();
    proof {
        assert(files_model(out@).to_multiset().add(files_model(input@).to_multiset())
            =~= files_model(files@).to_multiset());
    }
    while input.len() > 0
        invariant
            sorted_by_name(out@),
            files_model(out@).to_multiset().add(files_model(input@).to_multiset()) == files_model(
                files@,
            ).to_multiset(),
        decreases input@.len(),
    {
        broadcast use group_to_multiset_ensures;

        let ghost input0 = input@;
        let k = input.pop().unwrap();
        let mut pos: usize = 0;
        while pos < out.len() && str_le(out[pos].display_name.as_str(), k.display_name.as_str())
            invariant
                pos <= out@.len(),
                sorted_by_name(out@),
                forall|j: int|
                    0 <= j < pos ==> lex_le((#[trigger] out@[j]).display_name@, k.display_name@),
            decreases out@.len() - pos,
        {
            pos = pos + 1;
        }
        proof {
            if pos < out@.len() {
                lemma_lex_le_total(out@[pos as int].display_name@, k.display_name@);
            }
            let newseq = out@.insert(pos as int, k);
            assert forall|j1: int, j2: int| 0 <= j1 < j2 < newseq.len() implies lex_le(
                (#[trigger] newseq[j1]).display_name@,
                (#[trigger] newseq[j2]).display_name@,
            ) by {
                if j2 == pos {
                    assert(newseq[j1] == out@[j1]);
                } else if j1 == pos && j2 > pos {
                    assert(newseq[j2] == out@[j2 - 1]);
                    if pos < out@.len() && j2 - 1 > pos {
                        lemma_lex_le_transitive(
                            k.display_name@,
                            out@[pos as int].display_name@,
                            out@[j2 - 1].display_name@,
                        );
                    }
                } else if j1 < pos && j2 > pos {
                    assert(newseq[j1] == out@[j1]);
                    assert(newseq[j2] == out@[j2 - 1]);
                    if j2 - 1 == j1 {
                        lemma_lex_le_transitive(
                            out@[j1].display_name@,
                            k.display_name@,
                            out@[j2 - 1].display_name@,
                        );
                    }
                } else if j1 > pos {
                    assert(newseq[j1] == out@[j1 - 1]);
                    assert(newseq[j2] == out@[j2 - 1]);
                }
            }
            assert(input0 =~= input@.push(k));
            assert(files_model(input0) =~= files_model(input@).push(file_model(k)));
            assert(files_model(out@.insert(pos as int, k)) =~= files_model(out@).insert(
                pos as int,
                file_model(k),
            ));
            assert(files_model(out@.insert(pos as int, k)).to_multiset().add(
                files_model(input@).to_multiset(),
            ) =~= files_model(out@).to_multiset().add(files_model(input0).to_multiset()));
        }
        out.insert(pos, k);
    }
    proof {
        assert(files_model(input@) =~= Seq::<EnvModel>::empty());
        assert(files_model(input@).to_multiset() =~= Multiset::<EnvModel>::empty());
        assert(files_model(out@).to_multiset().add(Multiset::<EnvModel>::empty())
            =~= files_model(out@).to_multiset());
    }
    out
}

/// Collects the `.env*` files of one directory listing, sorted by name.
fn collect_env_files(dir: &str, entries: &Vec<String>, is_root: bool) -> (r: Vec<EnvFile>)
    ensures
        sorted_by_name(r@),
        files_model(r@).to_multiset() == env_models(dir@, names_model(entries@), is_root)
            .to_multiset(),
{
    broadcast use vstd::prelude::Seq::filter_distributes_over_add;

    let n = entries.len();
    let mut found: Vec<EnvFile> = Vec::new();
    let mut i: usize = 0;
    proof {
        reveal_with_fuel(Seq::<_>::filter, 2);
        assert(names_model(entries@).take(0) =~= Seq::<Seq<char>>::empty());
        assert(files_model(found@) =~= env_models(dir@, names_model(entries@).take(0), is_root));
    }
    while i < n
        invariant
            n == entries@.len(),
            i <= n,
            files_model(found@) == env_models(
                dir@,
                names_model(entries@).take(i as int),
                is_root,
            ),
        decreases n - i,
    {
        let ghost pref = names_model(entries@).take(i as int);
        let ghost name_i = entries@[i as int]@;
        let ghost found0 = files_model(found@);
        if name_starts_env(entries[i].as_str()) {
            let name = clone_str(&entries[i]);
            let mut path = dir.to_owned();
            path.append("/");
            path.append(name.as_str());
            let scope = if is_root {
                EnvScope::Root(dir.to_owned())
            } else {
                EnvScope::Package(dir.to_owned())
            };
            let f = EnvFile { path, display_name: name, scope };
            proof {
                assert(file_model(f) == (dir@ + "/"@ + name_i, name_i, is_root, dir@));
            }
            let ghost fm = file_model(f);
            found.push(f);
            proof {
                assert(files_model(found@) =~= found0.push(fm));
            }
        }
        proof {
            let whole = names_model(entries@);
            assert(whole.take(i as int + 1) =~= pref + seq![name_i]);
            assert(pref.filter(|n2: Seq<char>| starts_env(n2)) + seq![name_i].filter(
                |n2: Seq<char>| starts_env(n2),
            ) =~= whole.take(i as int + 1).filter(|n2: Seq<char>| starts_env(n2)));
            reveal_with_fuel(Seq::<_>::filter, 3);
            assert(seq![name_i].drop_last() =~= Seq::<Seq<char>>::empty());
            assert(seq![name_i].last() == name_i);
            let g = |n2: Seq<char>| (dir@ + "/"@ + n2, n2, is_root, dir@);
            let fpref = pref.filter(|n2: Seq<char>| starts_env(n2));
            let fsing = seq![name_i].filter(|n2: Seq<char>| starts_env(n2));
            assert((fpref + fsing).map_values(g) =~= fpref.map_values(g) + fsing.map_values(g));
            if starts_env(name_i) {
                assert(fsing =~= seq![name_i]);
                assert(fsing.map_values(g) =~= seq![g(name_i)]);
                assert(files_model(found@) =~= found0.push(g(name_i)));
                assert(found0.push(g(name_i)) =~= found0 + seq![g(name_i)]);
            } else {
                assert(fsing =~= Seq::<Seq<char>>::empty());
                assert(fsing.map_values(g) =~= Seq::<EnvModel>::empty());
            }
            assert(files_model(found@) =~= env_models(
                dir@,
                whole.take(i as int + 1),
                is_root,
            ));
        }
        i = i + 1;
    }
    proof {
        assert(names_model(entries@).take(n as int) =~= names_model(entries@));
    }
    sort_env_files(found)
}

/// Builds the project's environment file list from the directory listings:
/// the `.env*`-named entries of the package directory, and — when a distinct
/// monorepo root is given — of the root directory, each group sorted by name.
pub fn scan_env_files(
    package_dir: &str,
    package_entries: &Vec<String>,
    monorepo_root: Option<&str>,
    root_entries: &Vec<String>,
) -> (list: EnvFileList)
    ensures
        sorted_by_name(list.package_files@),
        files_model(list.package_files@).to_multiset() == env_models(
            package_dir@,
            names_model(package_entries@),
            false,
        ).to_multiset(),
        match monorepo_root {
            Option::Some(rd) => {
                if rd@ != package_dir@ {
                    &&& sorted_by_name(list.root_files@)
                    &&& files_model(list.root_files@).to_multiset() == env_models(
                        rd@,
                        names_model(root_entries@),
                        true,
                    ).to_multiset()
                } else {
                    list.root_files@.len() == 0
                }
            },
            Option::None => list.root_files@.len() == 0,
        },
{
    let package_files = collect_env_files(package_dir, package_entries, false);
    let root_files = match monorepo_root {
        Some(rd) => {
            if !str_eq(rd, package_dir) {
                collect_env_files(rd, root_entries, true)
            } else {
                Vec::new()
            }
        },
        None => Vec::new(),
    };
    EnvFileList { package_files, root_files }
}


/// The position of the first `=`, or the length when there is none.
pub open spec fn first_eq(s: Seq<char>) -> int
    decreases s.len(),
{
    if s.len() == 0 {
        0
    } else if s[0] == '=' {
        0
    } else {
        1 + first_eq(s.drop_first())
    }
}

/// `first_eq` names the position of the earliest `=`, or the length.
proof fn lemma_first_eq(s: Seq<char>)
    ensures
        0 <= first_eq(s) <= s.len(),
        first_eq(s) < s.len() ==> s[first_eq(s)] == '=',
        forall|j: int| 0 <= j < first_eq(s) ==> s[j] != '=',
    decreases s.len(),
{
    if s.len() > 0 && s[0] != '=' {
        lemma_first_eq(s.drop_first());
        assert forall|j: int| 0 <= j < first_eq(s) implies s[j] != '=' by {
            if j > 0 {
                assert(s.drop_first()[j - 1] == s[j]);
            }
        }
    }
}

/// The position of the first `=`, or the length.
fn scan_first_eq(s: &str) -> (cut: usize)
    ensures
        cut as int == first_eq(s@),
        cut <= s@.len(),
{
    let len = s.unicode_len();
    let mut cut: usize = 0;
    loop
        invariant
            len == s@.len(),
            cut <= len,
            forall|j: int| 0 <= j < cut ==> s@[j] != '=',
        decreases len - cut,
    {
        if cut >= len || s.get_char(cut) == '=' {
            proof {
                lemma_first_eq(s@);
                let p = first_eq(s@);
                assert(p == cut as int) by {
                    if p < cut as int {
                        assert(s@[p] != '=');
                    } else if cut < len && p > cut as int {
                        assert(s@[cut as int] != '=');
                    }
                }
            }
            return cut;
        }
        cut = cut + 1;
    }
}

/// A value with one layer of matching quotes removed: a pair of double or
/// single quotes around the whole value goes, anything else stays.
pub open spec fn spec_unquoted(v: Seq<char>) -> Seq<char> {
    if v.len() >= 2 && v[0] == '"' && v.last() == '"' {
        v.subrange(1, v.len() - 1)
    } else if v.len() >= 2 && v[0] == '\'' && v.last() == '\'' {
        v.subrange(1, v.len() - 1)
    } else {
        v
    }
}

/// What one line of an environment file defines: nothing for blank lines,
/// comments, lines without `=` or with an empty key; otherwise the trimmed
/// key before the first `=` and the trimmed, unquoted value after it.
pub open spec fn spec_env_line(line: Seq<char>) -> Option<(Seq<char>, Seq<char>)> {
    let t = crate::strutil::spec_trim(line);
    if t.len() == 0 || t[0] == '#' {
        None
    } else if first_eq(t) >= t.len() {
        None
    } else {
        let key = crate::strutil::spec_trim(t.take(first_eq(t)));
        let value = spec_unquoted(crate::strutil::spec_trim(t.skip(first_eq(t) + 1)));
        if key.len() == 0 {
            None
        } else {
            Some((key, value))
        }
    }
}

/// Parses one line of an environment file.
pub fn parse_env_line(line: &str) -> (r: Option<(String, String)>)
    ensures
        match r {
            Some(p) => spec_env_line(line@) == Some((p.0@, p.1@)),
            None => spec_env_line(line@) is None,
        },
{
    let t = crate::strutil::trim(line);
    let tlen = t.as_str().unicode_len();
    if tlen == 0 || t.as_str().get_char(0) == '#' {
        return None;
    }
    let e = scan_first_eq(t.as_str());
    if e >= tlen {
        return None;
    }
    let key_raw = t.as_str().substring_char(0, e);
    let key = crate::strutil::trim(key_raw);
    let value_raw = t.as_str().substring_char(e + 1, tlen);
    let value_trimmed = crate::strutil::trim(value_raw);
    let vlen = value_trimmed.as_str().unicode_len();
    let value = if vlen >= 2 && value_trimmed.as_str().get_char(0) == '"'
        && value_trimmed.as_str().get_char(vlen - 1) == '"' {
        value_trimmed.as_str().substring_char(1, vlen - 1).to_owned()
    } else if vlen >= 2 && value_trimmed.as_str().get_char(0) == '\''
        && value_trimmed.as_str().get_char(vlen - 1) == '\'' {
        value_trimmed.as_str().substring_char(1, vlen - 1).to_owned()
    } else {
        value_trimmed
    };
    if key.as_str().unicode_len() == 0 {
        return None;
    }
    Some((key, value))
}

/// The key-value pairs a sequence of lines defines, in order.
pub open spec fn spec_env_pairs(lines: Seq<Seq<char>>) -> Seq<(Seq<char>, Seq<char>)>
    decreases lines.len(),
{
    if lines.len() == 0 {
        Seq::empty()
    } else {
        (match spec_env_line(lines[0]) {
            Option::Some(p) => seq![p],
            Option::None => Seq::<(Seq<char>, Seq<char>)>::empty(),
        }) + spec_env_pairs(lines.drop_first())
    }
}

/// One more line extends the pairs by what it defines.
proof fn lemma_env_pairs_snoc(lines: Seq<Seq<char>>, i: int)
    requires
        0 <= i < lines.len(),
    ensures
        spec_env_pairs(lines.take(i + 1)) == spec_env_pairs(lines.take(i)) + (match spec_env_line(
            lines[i],
        ) {
            Option::Some(p) => seq![p],
            Option::None => Seq::<(Seq<char>, Seq<char>)>::empty(),
        }),
    decreases i,
{
    let tail = match spec_env_line(lines[i]) {
        Option::Some(p) => seq![p],
        Option::None => Seq::<(Seq<char>, Seq<char>)>::empty(),
    };
    if i == 0 {
        assert(lines.take(1) =~= seq![lines[0]]);
        assert(lines.take(1).drop_first() =~= Seq::<Seq<char>>::empty());
        assert(lines.take(1)[0] == lines[0]);
        assert(spec_env_pairs(lines.take(0)) =~= Seq::<(Seq<char>, Seq<char>)>::empty());
        assert(spec_env_pairs(lines.take(1).drop_first()) =~= Seq::<(Seq<char>, Seq<char>)>::empty());
        assert(spec_env_pairs(lines.take(1)) =~= tail);
        assert(spec_env_pairs(lines.take(0)) + tail =~= tail);
    } else {
        lemma_env_pairs_snoc(lines.drop_first(), i - 1);
        assert(lines.take(i + 1).drop_first() =~= lines.drop_first().take(i));
        assert(lines.take(i).drop_first() =~= lines.drop_first().take(i - 1));
        assert(lines.take(i + 1)[0] == lines[0]);
        assert(lines.take(i)[0] == lines[0]);
        assert(lines.drop_first()[i - 1] == lines[i]);
        let head = match spec_env_line(lines[0]) {
            Option::Some(p) => seq![p],
            Option::None => Seq::<(Seq<char>, Seq<char>)>::empty(),
        };
        assert(spec_env_pairs(lines.take(i + 1)) =~= head + spec_env_pairs(
            lines.drop_first().take(i),
        ));
        assert(spec_env_pairs(lines.take(i)) + tail =~= head + (spec_env_pairs(
            lines.drop_first().take(i - 1),
        ) + tail));
    }
}

/// The views of a pair list.
pub open spec fn pairs_model(s: Seq<(String, String)>) -> Seq<(Seq<char>, Seq<char>)> {
    s.map_values(|p: (String, String)| (p.0@, p.1@))
}

/// Parses the lines of one environment file into its key-value pairs, in
/// order; later files' pairs, appended behind these, override them when the
/// caller merges left to right.
pub fn parse_env_lines(lines: &Vec<String>) -> (r: Vec<(String, String)>)
    ensures
        pairs_model(r@) == spec_env_pairs(names_model(lines@)),
{
    let ghost m = names_model(lines@);
    let n = lines.len();
    let mut r: Vec<(String, String)> = Vec::new();
    let mut i: usize = 0;
    proof {
        assert(pairs_model(r@) =~= spec_env_pairs(m.take(0)));
    }
    while i < n
        invariant
            n == lines@.len(),
            m == names_model(lines@),
            m.len() == n,
            i <= n,
            pairs_model(r@) == spec_env_pairs(m.take(i as int)),
        decreases n - i,
    {
        let ghost r0 = pairs_model(r@);
        match parse_env_line(lines[i].as_str()) {
            Some(p) => {
                let ghost pm = (p.0@, p.1@);
                r.push(p);
                proof {
                    assert(pairs_model(r@) =~= r0.push(pm));
                    assert(r0.push(pm) =~= r0 + seq![pm]);
                }
            },
            None => {},
        }
        proof {
            lemma_env_pairs_snoc(m, i as int);
            assert(m[i as int] == lines@[i as int]@);
            if spec_env_line(m[i as int]) is None {
                assert(pairs_model(r@) =~= spec_env_pairs(m.take(i as int))
                    + Seq::<(Seq<char>, Seq<char>)>::empty());
            }
        }
        i = i + 1;
    }
    proof {
        assert(m.take(n as int) =~= m);
    }
    r
}
} // verus!
