//! The ranking engine: orders a script list for display. With no query,
//! favorites come first in alphabetical order, then the rest by descending
//! frecency with an alphabetical tie-break. With a query, fuzzy relevance is
//! the primary key and non-matching scripts are dropped; relevance ties go to
//! favorites, then frecency, then the name.
//!
//! Every ordering is reduced to one totally ordered sort key per item, and
//! one verified insertion sort over those keys.

use vstd::prelude::*;
use vstd::seq_lib::group_to_multiset_ensures;
use vstd::multiset::Multiset;
use crate::strutil::lex_le;
use crate::strutil::str_le;
use crate::strutil::str_eq;
use crate::strutil::lemma_lex_le_total;
use crate::strutil::lemma_lex_le_antisymmetric;
use crate::strutil::lemma_lex_le_transitive;
use crate::strutil::clone_str;
use crate::favorites::FavoriteSet;
use crate::recents::RecentEntry;
use crate::recents::RecModel;
use crate::recents::store_model;
use crate::recents::spec_score_of;
use crate::recents::score_of;
use crate::fuzzy::relevance_of;
use crate::fuzzy::fuzzy_scores;

verus! {

/// One item's sort key: compared lexicographically, field by field, all
/// ascending, with the original position as the final tie-break. Rank fields
/// are inverted ("smaller is better") by their builders.
pub struct RankKey {
    /// Primary rank: inverted fuzzy relevance, or 0 when there is no query.
    pub r1: u32,
    /// Favorite rank: 0 for favorites, 1 for the rest.
    pub r2: u8,
    /// Frecency rank: inverted frecency score, or 0 where it does not apply.
    pub r3: u64,
    /// The display name, compared lexicographically by code point.
    pub name: String,
    /// The item's position in the caller's list.
    pub idx: usize,
}

/// A name strictly below another in the lexicographic order.
pub open spec fn name_lt(a: Seq<char>, b: Seq<char>) -> bool {
    lex_le(a, b) && a != b
}

/// The total order on sort keys.
pub open spec fn key_le(a: RankKey, b: RankKey) -> bool {
    if a.r1 != b.r1 {
        a.r1 < b.r1
    } else if a.r2 != b.r2 {
        a.r2 < b.r2
    } else if a.r3 != b.r3 {
        a.r3 < b.r3
    } else if a.name@ != b.name@ {
        name_lt(a.name@, b.name@)
    } else {
        a.idx <= b.idx
    }
}

/// Any two keys are ordered one way or the other.
pub proof fn lemma_key_le_total(a: RankKey, b: RankKey)
    ensures
        key_le(a, b) || key_le(b, a),
{
    if a.r1 == b.r1 && a.r2 == b.r2 && a.r3 == b.r3 && a.name@ != b.name@ {
        lemma_lex_le_total(a.name@, b.name@);
    }
}

/// The key order is transitive.
pub proof fn lemma_key_le_transitive(a: RankKey, b: RankKey, c: RankKey)
    requires
        key_le(a, b),
        key_le(b, c),
    ensures
        key_le(a, c),
{
    if a.r1 == b.r1 && b.r1 == c.r1 && a.r2 == b.r2 && b.r2 == c.r2 && a.r3 == b.r3 && b.r3
        == c.r3 {
        if a.name@ != b.name@ && b.name@ != c.name@ {
            lemma_lex_le_transitive(a.name@, b.name@, c.name@);
            if a.name@ == c.name@ {
                lemma_lex_le_antisymmetric(a.name@, b.name@);
            }
        }
    }
}

/// Decides the key order.
fn key_le_exec(a: &RankKey, b: &RankKey) -> (r: bool)
    ensures
        r == key_le(*a, *b),
{
    if a.r1 != b.r1 {
        a.r1 < b.r1
    } else if a.r2 != b.r2 {
        a.r2 < b.r2
    } else if a.r3 != b.r3 {
        a.r3 < b.r3
    } else if !str_eq(a.name.as_str(), b.name.as_str()) {
        str_le(a.name.as_str(), b.name.as_str())
    } else {
        a.idx <= b.idx
    }
}

/// A key sequence sorted by the key order.
pub open spec fn keys_sorted(s: Seq<RankKey>) -> bool {
    forall|j1: int, j2: int| 0 <= j1 < j2 < s.len() ==> key_le(#[trigger] s[j1], #[trigger] s[j2])
}

/// Sorts the keys: the result is ordered and holds exactly the given keys.
fn sort_keys(keys: Vec<RankKey>) -> (out: Vec<RankKey>)
    ensures
        keys_sorted(out@),
        out@.to_multiset() == keys@.to_multiset(),
        out@.len() == keys@.len(),
{
    broadcast use group_to_multiset_ensures;

    let mut input = keys;
    let mut out: Vec<RankKey> = Vec::new();
    proof {
        assert(out@.to_multiset().add(input@.to_multiset()) =~= keys@.to_multiset());
    }
    while input.len() > 0
        invariant
            keys_sorted(out@),
            out@.to_multiset().add(input@.to_multiset()) == keys@.to_multiset(),
            out@.len() + input@.len() == keys@.len(),
        decreases input@.len(),
    {
        broadcast use group_to_multiset_ensures;

        let ghost input0 = input@;
        let k = input.pop().unwrap();
        let mut pos: usize = 0;
        while pos < out.len() && key_le_exec(&out[pos], &k)
            invariant
                pos <= out@.len(),
                keys_sorted(out@),
                forall|j: int| 0 <= j < pos ==> key_le(#[trigger] out@[j], k),
            decreases out@.len() - pos,
        {
            pos = pos + 1;
        }
        proof {
            if pos < out@.len() {
                lemma_key_le_total(out@[pos as int], k);
            }
            let newseq = out@.insert(pos as int, k);
            assert forall|j1: int, j2: int| 0 <= j1 < j2 < newseq.len() implies key_le(
                #[trigger] newseq[j1],
                #[trigger] newseq[j2],
            ) by {
                if j2 == pos {
                    assert(newseq[j1] == out@[j1]);
                } else if j1 == pos && j2 > pos {
                    assert(newseq[j2] == out@[j2 - 1]);
                    if pos < out@.len() {
                        if j2 - 1 > pos {
                            lemma_key_le_transitive(k, out@[pos as int], out@[j2 - 1]);
                        }
                    }
                } else if j1 < pos && j2 > pos {
                    assert(newseq[j1] == out@[j1]);
                    assert(newseq[j2] == out@[j2 - 1]);
                    if j2 - 1 == j1 {
                        lemma_key_le_transitive(out@[j1], k, out@[j2 - 1]);
                    }
                } else if j1 > pos {
                    assert(newseq[j1] == out@[j1 - 1]);
                    assert(newseq[j2] == out@[j2 - 1]);
                }
            }
            // the popped element moves from the input multiset to the output one
            assert(input0 =~= input@.push(k));
            assert(input0.to_multiset() == input@.to_multiset().insert(k));
            assert(out@.insert(pos as int, k).to_multiset() == out@.to_multiset().insert(k));
            assert(out@.insert(pos as int, k).to_multiset().add(input@.to_multiset())
                =~= out@.to_multiset().add(input0.to_multiset()));
        }
        out.insert(pos, k);
    }
    proof {
        assert(input@.to_multiset() =~= Multiset::<RankKey>::empty());
        assert(out@.to_multiset().add(Multiset::<RankKey>::empty()) =~= out@.to_multiset());
    }
    out
}

/// Sorts keys whose `idx` field is their own position, and hands back the
/// `idx` fields in sorted order: a permutation of `0 .. keys.len()` ordered by
/// the keys.
pub(crate) fn sort_to_indices(keys: Vec<RankKey>) -> (order: Vec<usize>)
    requires
        forall|t: int| 0 <= t < keys@.len() ==> (#[trigger] keys@[t]).idx == t,
    ensures
        order@.len() == keys@.len(),
        forall|j: int| 0 <= j < order@.len() ==> (#[trigger] order@[j]) < keys@.len(),
        forall|j1: int, j2: int|
            0 <= j1 < j2 < order@.len() ==> key_le(
                keys@[#[trigger] order@[j1] as int],
                keys@[#[trigger] order@[j2] as int],
            ) && order@[j1] != order@[j2],
        forall|t: usize|
            0 <= t < keys@.len() ==> order@.contains(t),
{
    broadcast use group_to_multiset_ensures;

    let ghost keyseq = keys@;
    proof {
        assert(keyseq.no_duplicates()) by {
            assert forall|t1: int, t2: int|
                0 <= t1 < keyseq.len() && 0 <= t2 < keyseq.len() && t1 != t2 implies keyseq[t1]
                != keyseq[t2] by {
                assert(keyseq[t1].idx == t1);
            }
        }
    }
    let sorted = sort_keys(keys);
    proof {
        keyseq.lemma_multiset_has_no_duplicates();
        sorted@.lemma_multiset_has_no_duplicates_conv();
        // every sorted key is one of the input keys, at the position its idx names
        assert forall|j: int| 0 <= j < sorted@.len() implies keyseq[(#[trigger] sorted@[j]).idx
            as int] == sorted@[j] && sorted@[j].idx < keyseq.len() by {
            assert(sorted@.to_multiset().count(sorted@[j]) > 0);
            assert(keyseq.to_multiset().contains(sorted@[j]));
            assert(keyseq.contains(sorted@[j]));
            let t = choose|t: int| 0 <= t < keyseq.len() && keyseq[t] == sorted@[j];
            assert(keyseq[t].idx == t);
        }
    }
    let m = sorted.len();
    let mut order: Vec<usize> = Vec::new();
    let mut j: usize = 0;
    while j < m
        invariant
            m == sorted@.len(),
            j <= m,
            order@.len() == j,
            forall|u: int| 0 <= u < j ==> (#[trigger] order@[u]) == sorted@[u].idx,
        decreases m - j,
    {
        let idx = sorted[j].idx;
        order.push(idx);
        j = j + 1;
    }
    proof {
        assert forall|j1: int, j2: int| 0 <= j1 < j2 < order@.len() implies key_le(
            keyseq[#[trigger] order@[j1] as int],
            keyseq[#[trigger] order@[j2] as int],
        ) && order@[j1] != order@[j2] by {
            assert(keyseq[order@[j1] as int] == sorted@[j1]);
            assert(keyseq[order@[j2] as int] == sorted@[j2]);
            if sorted@[j1] == sorted@[j2] {
                assert(sorted@.to_multiset().count(sorted@[j1]) > 0);
                sorted@.lemma_multiset_has_no_duplicates_conv();
            }
        }
        broadcast use group_to_multiset_ensures;

        assert forall|t: usize| 0 <= t < keyseq.len() implies order@.contains(t) by {
            assert(keyseq.to_multiset().count(keyseq[t as int]) > 0);
            assert(sorted@.to_multiset().contains(keyseq[t as int]));
            assert(sorted@.contains(keyseq[t as int]));
            let j2 = choose|j2: int| 0 <= j2 < sorted@.len() && sorted@[j2] == keyseq[t as int];
            assert(keyseq[t as int].idx == t as int);
            assert(order@[j2] == t);
        }
    }
    order
}

/// One runnable entry as the ranking engine sees it.
pub struct SortableScript {
    /// The stable identity string, used for favorite and recency lookups.
    pub key: String,
    /// The name shown to the user; what the query is matched against.
    pub name: String,
    /// The shell command, for display only.
    pub command: String,
}

/// Whether the script at position `i` is a favorite.
pub open spec fn is_fav(scripts: Seq<SortableScript>, favorites: FavoriteSet, i: int) -> bool {
    favorites.spec_contains(scripts[i].key@)
}

/// The frecency score the store gives to the script at position `i`.
pub open spec fn frec_of(
    scripts: Seq<SortableScript>,
    recents: Seq<RecModel>,
    now_ms: u64,
    i: int,
) -> int {
    spec_score_of(recents, scripts[i].key@, now_ms)
}

/// The display order without a query, as a relation on positions `a`, `b`:
/// favorites before the rest; favorites among themselves alphabetically;
/// the rest by descending frecency, then alphabetically; the original
/// position breaks remaining ties.
pub open spec fn ranked_before_no_query(
    scripts: Seq<SortableScript>,
    favorites: FavoriteSet,
    recents: Seq<RecModel>,
    now_ms: u64,
    a: int,
    b: int,
) -> bool {
    let fa = is_fav(scripts, favorites, a);
    let fb = is_fav(scripts, favorites, b);
    if fa != fb {
        fa
    } else if fa {
        if scripts[a].name@ != scripts[b].name@ {
            name_lt(scripts[a].name@, scripts[b].name@)
        } else {
            a <= b
        }
    } else {
        let sa = frec_of(scripts, recents, now_ms, a);
        let sb = frec_of(scripts, recents, now_ms, b);
        if sa != sb {
            sa > sb
        } else if scripts[a].name@ != scripts[b].name@ {
            name_lt(scripts[a].name@, scripts[b].name@)
        } else {
            a <= b
        }
    }
}

/// The display order under a query, as a relation on matching positions:
/// fuzzy relevance first, descending; ties go to favorites, then to
/// descending frecency, then to the name; the original position breaks
/// remaining ties.
pub open spec fn ranked_before_with_query(
    scripts: Seq<SortableScript>,
    favorites: FavoriteSet,
    recents: Seq<RecModel>,
    query: Seq<char>,
    now_ms: u64,
    a: int,
    b: int,
) -> bool {
    let ra = relevance_of(query, scripts[a].name@)->0;
    let rb = relevance_of(query, scripts[b].name@)->0;
    let fa = is_fav(scripts, favorites, a);
    let fb = is_fav(scripts, favorites, b);
    let sa = frec_of(scripts, recents, now_ms, a);
    let sb = frec_of(scripts, recents, now_ms, b);
    if ra != rb {
        ra > rb
    } else if fa != fb {
        fa
    } else if sa != sb {
        sa > sb
    } else if scripts[a].name@ != scripts[b].name@ {
        name_lt(scripts[a].name@, scripts[b].name@)
    } else {
        a <= b
    }
}

/// What it means for `order` to be the ranking of `scripts` without a query:
/// a permutation of all positions, arranged by `ranked_before_no_query`.
pub open spec fn is_ranking_no_query(
    scripts: Seq<SortableScript>,
    favorites: FavoriteSet,
    recents: Seq<RecModel>,
    now_ms: u64,
    order: Seq<usize>,
) -> bool {
    &&& order.len() == scripts.len()
    &&& forall|j: int| 0 <= j < order.len() ==> (#[trigger] order[j]) < scripts.len()
    &&& forall|t: usize| 0 <= t < scripts.len() ==> order.contains(t)
    &&& forall|j1: int, j2: int|
        0 <= j1 < j2 < order.len() ==> #[trigger] order[j1] != #[trigger] order[j2]
            && ranked_before_no_query(
            scripts,
            favorites,
            recents,
            now_ms,
            order[j1] as int,
            order[j2] as int,
        )
}

/// What it means for `order` to be the ranking of `scripts` under a query:
/// exactly the matching positions, arranged by `ranked_before_with_query`.
pub open spec fn is_ranking_with_query(
    scripts: Seq<SortableScript>,
    favorites: FavoriteSet,
    recents: Seq<RecModel>,
    query: Seq<char>,
    now_ms: u64,
    order: Seq<usize>,
) -> bool {
    &&& order.len() <= scripts.len()
    &&& forall|j: int|
        0 <= j < order.len() ==> (#[trigger] order[j]) < scripts.len() && relevance_of(
            query,
            scripts[order[j] as int].name@,
        ) is Some
    &&& forall|i: int|
        0 <= i < scripts.len() && relevance_of(query, (#[trigger] scripts[i]).name@) is Some
            ==> order.contains(i as usize)
    &&& forall|j1: int, j2: int|
        0 <= j1 < j2 < order.len() ==> #[trigger] order[j1] != #[trigger] order[j2]
            && ranked_before_with_query(
            scripts,
            favorites,
            recents,
            query,
            now_ms,
            order[j1] as int,
            order[j2] as int,
        )
}

/// Ranks the whole list for browsing, with no query: the positions of all
/// scripts, favorites first and alphabetical, the rest by descending frecency
/// evaluated at `now_ms`, alphabetical on ties.
pub fn sort_scripts_no_query(
    scripts: &Vec<SortableScript>,
    favorites: &FavoriteSet,
    recents: &Vec<RecentEntry>,
    now_ms: u64,
) -> (order: Vec<usize>)
    ensures
        is_ranking_no_query(scripts@, *favorites, store_model(recents@), now_ms, order@),
{
    let ghost rm = store_model(recents@);
    let n = scripts.len();
    let mut keys: Vec<RankKey> = Vec::new();
    let mut i: usize = 0;
    while i < n
        invariant
            n == scripts@.len(),
            rm == store_model(recents@),
            i <= n,
            keys@.len() == i,
            forall|t: int| 0 <= t < i ==> (#[trigger] keys@[t]).idx == t,
            forall|t: int| 0 <= t < i ==> (#[trigger] keys@[t]).r1 == 0,
            forall|t: int| 0 <= t < i ==> (#[trigger] keys@[t]).name@ == scripts@[t].name@,
            forall|t: int|
                0 <= t < i ==> if is_fav(scripts@, *favorites, t) {
                    (#[trigger] keys@[t]).r2 == 0 && keys@[t].r3 == 0
                } else {
                    (#[trigger] keys@[t]).r2 == 1 && keys@[t].r3 == u64::MAX - frec_of(
                        scripts@,
                        rm,
                        now_ms,
                        t,
                    )
                },
        decreases n - i,
    {
        let fav = favorites.contains(scripts[i].key.as_str());
        let key = if fav {
            RankKey { r1: 0, r2: 0, r3: 0, name: clone_str(&scripts[i].name), idx: i }
        } else {
            let sc = score_of(recents, scripts[i].key.as_str(), now_ms);
            RankKey {
                r1: 0,
                r2: 1,
                r3: u64::MAX - sc,
                name: clone_str(&scripts[i].name),
                idx: i,
            }
        };
        keys.push(key);
        i = i + 1;
    }
    let ghost keyseq = keys@;
    let order = sort_to_indices(keys);
    proof {
        assert forall|j1: int, j2: int| 0 <= j1 < j2 < order@.len() implies #[trigger] order@[j1]
            != #[trigger] order@[j2] && ranked_before_no_query(
            scripts@,
            *favorites,
            rm,
            now_ms,
            order@[j1] as int,
            order@[j2] as int,
        ) by {
            let a = order@[j1] as int;
            let b = order@[j2] as int;
            assert(key_le(keyseq[a], keyseq[b]) && order@[j1] != order@[j2]);
        }
    }
    order
}

/// Ranks the list under a query at `now_ms`: the positions of exactly the
/// matching scripts, by descending relevance; favorites, then descending
/// frecency, then the name break relevance ties.
pub fn sort_scripts_with_query(
    scripts: &Vec<SortableScript>,
    favorites: &FavoriteSet,
    recents: &Vec<RecentEntry>,
    query: &str,
    now_ms: u64,
) -> (order: Vec<usize>)
    ensures
        is_ranking_with_query(
            scripts@,
            *favorites,
            store_model(recents@),
            query@,
            now_ms,
            order@,
        ),
        (forall|i: int|
            0 <= i < scripts@.len() ==> relevance_of(query@, (#[trigger] scripts@[i]).name@)
                is None) ==> order@.len() == 0,
{
    let ghost rm = store_model(recents@);
    let n = scripts.len();
    let mut names: Vec<String> = Vec::new();
    let mut i: usize = 0;
    while i < n
        invariant
            n == scripts@.len(),
            i <= n,
            names@.len() == i,
            forall|t: int| 0 <= t < i ==> (#[trigger] names@[t])@ == scripts@[t].name@,
        decreases n - i,
    {
        names.push(clone_str(&scripts[i].name));
        i = i + 1;
    }
    let rels = fuzzy_scores(&names, query);
    let mut keys: Vec<RankKey> = Vec::new();
    let mut i2: usize = 0;
    while i2 < n
        invariant
            n == scripts@.len(),
            rm == store_model(recents@),
            names@.len() == n,
            forall|t: int| 0 <= t < n ==> (#[trigger] names@[t])@ == scripts@[t].name@,
            rels@.len() == n,
            forall|t: int|
                0 <= t < n ==> rels@[t] == relevance_of(query@, (#[trigger] names@[t])@),
            i2 <= n,
            keys@.len() == i2,
            forall|t: int| 0 <= t < i2 ==> (#[trigger] keys@[t]).idx == t,
            forall|t: int| 0 <= t < i2 ==> (#[trigger] keys@[t]).name@ == scripts@[t].name@,
            forall|t: int|
                0 <= t < i2 ==> match relevance_of(query@, scripts@[t].name@) {
                    Some(rel) => {
                        &&& (#[trigger] keys@[t]).r1 == u32::MAX - rel
                        &&& (if is_fav(scripts@, *favorites, t) {
                            keys@[t].r2 == 0
                        } else {
                            keys@[t].r2 == 1
                        })
                        &&& keys@[t].r3 == u64::MAX - frec_of(scripts@, rm, now_ms, t)
                    },
                    None => (#[trigger] keys@[t]).r1 == u32::MAX && keys@[t].r2 == 2
                        && keys@[t].r3 == 0,
                },
        decreases n - i2,
    {
        proof {
            assert(names@[i2 as int]@ == scripts@[i2 as int].name@);
            assert(rels@[i2 as int] == relevance_of(query@, scripts@[i2 as int].name@));
        }
        let key = match rels[i2] {
            Some(rel) => {
                let fav = favorites.contains(scripts[i2].key.as_str());
                let sc = score_of(recents, scripts[i2].key.as_str(), now_ms);
                RankKey {
                    r1: u32::MAX - rel,
                    r2: if fav {
                        0
                    } else {
                        1
                    },
                    r3: u64::MAX - sc,
                    name: clone_str(&scripts[i2].name),
                    idx: i2,
                }
            },
            None => RankKey {
                r1: u32::MAX,
                r2: 2,
                r3: 0,
                name: clone_str(&scripts[i2].name),
                idx: i2,
            },
        };
        keys.push(key);
        i2 = i2 + 1;
    }
    let ghost keyseq = keys@;
    proof {
        assert forall|u: int| 0 <= u < n implies rels@[u] is Some == ((#[trigger] keyseq[u]).r2
            < 2) by {
            assert(names@[u]@ == scripts@[u].name@);
            assert(rels@[u] == relevance_of(query@, scripts@[u].name@));
        }
    }
    let full = sort_to_indices(keys);
    let mut order: Vec<usize> = Vec::new();
    let ghost mut src: Seq<int> = Seq::empty();
    let mut t: usize = 0;
    while t < full.len()
        invariant
            n == scripts@.len(),
            rm == store_model(recents@),
            names@.len() == n,
            forall|u: int| 0 <= u < n ==> (#[trigger] names@[u])@ == scripts@[u].name@,
            rels@.len() == n,
            forall|u: int|
                0 <= u < n ==> rels@[u] == relevance_of(query@, (#[trigger] names@[u])@),
            keyseq.len() == n,
            forall|u: int| 0 <= u < n ==> (#[trigger] keyseq[u]).idx == u,
            forall|u: int|
                0 <= u < n ==> rels@[u] is Some == ((#[trigger] keyseq[u]).r2 < 2),
            full@.len() == n,
            forall|j: int| 0 <= j < n ==> (#[trigger] full@[j]) < n,
            forall|j1: int, j2: int|
                0 <= j1 < j2 < n ==> key_le(
                    keyseq[#[trigger] full@[j1] as int],
                    keyseq[#[trigger] full@[j2] as int],
                ) && full@[j1] != full@[j2],
            forall|u: usize| 0 <= u < n ==> full@.contains(u),
            t <= n,
            src.len() == order@.len(),
            forall|j: int|
                0 <= j < order@.len() ==> 0 <= #[trigger] src[j] < t && order@[j] == full@[src[j]],
            forall|j1: int, j2: int| 0 <= j1 < j2 < order@.len() ==> src[j1] < src[j2],
            forall|j: int| 0 <= j < order@.len() ==> (#[trigger] order@[j]) < n,
            forall|j: int|
                0 <= j < order@.len() ==> rels@[#[trigger] order@[j] as int] is Some,
            forall|j: int|
                0 <= j < t && rels@[#[trigger] full@[j] as int] is Some ==> exists|u: int|
                    0 <= u < order@.len() && order@[u] == full@[j],
        decreases full@.len() - t,
    {
        let idx = full[t];
        let ghost order0 = order@;
        if rels[idx].is_some() {
            proof {
                src = src.push(t as int);
            }
            order.push(idx);
            proof {
                assert forall|j: int|
                    0 <= j < t + 1 && rels@[#[trigger] full@[j] as int] is Some implies exists|
                    u: int,
                |
                    0 <= u < order@.len() && order@[u] == full@[j] by {
                    if j == t {
                        assert(order@[order@.len() - 1] == full@[j]);
                    } else {
                        let u = choose|u: int| 0 <= u < order0.len() && order0[u] == full@[j];
                        assert(order@[u] == full@[j]);
                    }
                }
            }
        }
        t = t + 1;
    }
    proof {
        assert forall|i3: int|
            0 <= i3 < scripts@.len() && relevance_of(query@, (#[trigger] scripts@[i3]).name@)
                is Some implies order@.contains(i3 as usize) by {
            assert(names@[i3]@ == scripts@[i3].name@);
            assert(full@.contains(i3 as usize));
            let j = choose|j: int| 0 <= j < full@.len() && full@[j] == i3 as usize;
            assert(rels@[full@[j] as int] is Some);
            let u = choose|u: int| 0 <= u < order@.len() && order@[u] == full@[j];
            assert(order@[u] == i3 as usize);
        }
        assert forall|j1: int, j2: int| 0 <= j1 < j2 < order@.len() implies #[trigger] order@[j1]
            != #[trigger] order@[j2] && ranked_before_with_query(
            scripts@,
            *favorites,
            rm,
            query@,
            now_ms,
            order@[j1] as int,
            order@[j2] as int,
        ) by {
            let s1 = src[j1];
            let s2 = src[j2];
            assert(order@[j1] == full@[s1]);
            assert(order@[j2] == full@[s2]);
            assert(key_le(keyseq[full@[s1] as int], keyseq[full@[s2] as int]) && full@[s1]
                != full@[s2]);
            let a = order@[j1] as int;
            let b = order@[j2] as int;
            assert(names@[a]@ == scripts@[a].name@);
            assert(names@[b]@ == scripts@[b].name@);
            assert(key_le(keyseq[a], keyseq[b]));
        }
        assert forall|j: int| 0 <= j < order@.len() implies relevance_of(
            query@,
            scripts@[#[trigger] order@[j] as int].name@,
        ) is Some by {
            assert(rels@[order@[j] as int] is Some);
            assert(names@[order@[j] as int]@ == scripts@[order@[j] as int].name@);
        }
        // strictly increasing source positions below n bound the output length
        assert(order@.len() <= n) by {
            if order@.len() > n {
                lemma_src_increasing(src, n as int);
                assert(src[n as int] < n);
            }
        }
        if order@.len() > 0 {
            assert(rels@[order@[0] as int] is Some);
            assert(names@[order@[0] as int]@ == scripts@[order@[0] as int].name@);
            assert(relevance_of(query@, scripts@[order@[0] as int].name@) is Some);
        }
    }
    order
}

/// Ranks the scripts for display, with frecency evaluated at the current
/// wall-clock time: the empty-query ranking of the whole list when the query
/// is empty, the relevance-filtered ranking otherwise. With a query that
/// matches nothing, the result is empty.
pub fn sort_scripts(
    scripts: &Vec<SortableScript>,
    favorites: &FavoriteSet,
    recents: &Vec<RecentEntry>,
    query: &str,
) -> (order: Vec<usize>)
    ensures
        query@.len() == 0 ==> order@.len() == scripts@.len() && exists|now_ms: u64|
            is_ranking_no_query(scripts@, *favorites, store_model(recents@), now_ms, order@),
        query@.len() > 0 ==> exists|now_ms: u64|
            is_ranking_with_query(
                scripts@,
                *favorites,
                store_model(recents@),
                query@,
                now_ms,
                order@,
            ),
        query@.len() > 0 && (forall|i: int|
            0 <= i < scripts@.len() ==> relevance_of(query@, (#[trigger] scripts@[i]).name@)
                is None) ==> order@.len() == 0,
{
    let now = crate::recents::now_ms();
    if query.unicode_len() == 0 {
        let order = sort_scripts_no_query(scripts, favorites, recents, now);
        proof {
            assert(is_ranking_no_query(
                scripts@,
                *favorites,
                store_model(recents@),
                now,
                order@,
            ));
        }
        order
    } else {
        let order = sort_scripts_with_query(scripts, favorites, recents, query, now);
        proof {
            assert(is_ranking_with_query(
                scripts@,
                *favorites,
                store_model(recents@),
                query@,
                now,
                order@,
            ));
        }
        order
    }
}

/// The shape of the empty-query ranking: nothing is dropped, every favorite
/// precedes every non-favorite, and favorites stand in alphabetical order of
/// their names.
pub proof fn lemma_no_query_ranking_shape(
    scripts: Seq<SortableScript>,
    favorites: FavoriteSet,
    recents: Seq<RecModel>,
    now_ms: u64,
    order: Seq<usize>,
)
    requires
        is_ranking_no_query(scripts, favorites, recents, now_ms, order),
    ensures
        order.len() == scripts.len(),
        forall|j1: int, j2: int|
            0 <= j1 < j2 < order.len() && is_fav(scripts, favorites, #[trigger] order[j2] as int)
                ==> is_fav(scripts, favorites, #[trigger] order[j1] as int),
        forall|j1: int, j2: int|
            0 <= j1 < j2 < order.len() && is_fav(scripts, favorites, #[trigger] order[j1] as int)
                && is_fav(scripts, favorites, #[trigger] order[j2] as int) ==> lex_le(
                scripts[order[j1] as int].name@,
                scripts[order[j2] as int].name@,
            ),
{
    assert forall|j1: int, j2: int|
        0 <= j1 < j2 < order.len() && is_fav(
            scripts,
            favorites,
            #[trigger] order[j2] as int,
        ) implies is_fav(scripts, favorites, #[trigger] order[j1] as int) by {
        assert(ranked_before_no_query(
            scripts,
            favorites,
            recents,
            now_ms,
            order[j1] as int,
            order[j2] as int,
        ));
    }
    assert forall|j1: int, j2: int|
        0 <= j1 < j2 < order.len() && is_fav(scripts, favorites, #[trigger] order[j1] as int)
            && is_fav(scripts, favorites, #[trigger] order[j2] as int) implies lex_le(
        scripts[order[j1] as int].name@,
        scripts[order[j2] as int].name@,
    ) by {
        assert(ranked_before_no_query(
            scripts,
            favorites,
            recents,
            now_ms,
            order[j1] as int,
            order[j2] as int,
        ));
        if scripts[order[j1] as int].name@ == scripts[order[j2] as int].name@ {
            crate::strutil::lemma_lex_le_refl(scripts[order[j1] as int].name@);
        }
    }
}

/// A strictly increasing sequence of non-negative integers grows at least as
/// fast as its position.
proof fn lemma_src_increasing(src: Seq<int>, j: int)
    requires
        0 <= j < src.len(),
        forall|u: int| 0 <= u < src.len() ==> #[trigger] src[u] >= 0,
        forall|j1: int, j2: int| 0 <= j1 < j2 < src.len() ==> src[j1] < src[j2],
    ensures
        src[j] >= j,
    decreases j,
{
    if j > 0 {
        lemma_src_increasing(src, j - 1);
    }
}

} // verus!
