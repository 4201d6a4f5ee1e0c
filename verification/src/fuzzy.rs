//! Fuzzy matching of a free-text query against candidate names. The matching
//! itself is nucleo's; this module names its result and offers a verified
//! filter that returns matching indices in relevance order.

use vstd::prelude::*;
use crate::sort::RankKey;
use crate::sort::key_le;
use crate::sort::sort_to_indices;

verus! {

/// What the fuzzy matcher returns for a query against one candidate text:
/// nothing when the text does not match, a relevance score when it does.
/// The result depends on the query and the text alone.
pub uninterp spec fn relevance_of(query: Seq<char>, text: Seq<char>) -> Option<u32>;

/// Relies on nucleo_matcher's `Pattern::parse` (case-insensitive, smart
/// normalization) and `Pattern::score` under the default matcher
/// configuration: a deterministic score computed from the query and the
/// candidate text alone.
#[verifier::external_body]
fn fuzzy_score(query: &str, text: &str) -> (r: Option<u32>)
    ensures
        r == relevance_of(query@, text@),
{
    let mut matcher = nucleo_matcher::Matcher::new(nucleo_matcher::Config::DEFAULT);
    let pattern = nucleo_matcher::pattern::Pattern::parse(
        query,
        nucleo_matcher::pattern::CaseMatching::Ignore,
        nucleo_matcher::pattern::Normalization::Smart,
    );
    let mut buf = Vec::new();
    let haystack = nucleo_matcher::Utf32Str::new(text, &mut buf);
    pattern.score(haystack, &mut matcher)
}

/// Scores the query against every text.
pub fn fuzzy_scores(texts: &Vec<String>, query: &str) -> (rels: Vec<Option<u32>>)
    ensures
        rels@.len() == texts@.len(),
        forall|i: int|
            0 <= i < texts@.len() ==> rels@[i] == relevance_of(query@, (#[trigger] texts@[i])@),
{
    let n = texts.len();
    let mut rels: Vec<Option<u32>> = Vec::new();
    let mut i: usize = 0;
    while i < n
        invariant
            n == texts@.len(),
            i <= n,
            rels@.len() == i,
            forall|j: int|
                0 <= j < i ==> rels@[j] == relevance_of(query@, (#[trigger] texts@[j])@),
        decreases n - i,
    {
        let r = fuzzy_score(query, texts[i].as_str());
        rels.push(r);
        i = i + 1;
    }
    rels
}

/// The indices of the texts that match the query, best match first: relevance
/// descending, original position breaking ties. An empty query matches every
/// text and keeps the original order.
pub fn fuzzy_filter(texts: &Vec<String>, query: &str) -> (order: Vec<usize>)
    ensures
        query@.len() == 0 ==> order@.len() == texts@.len() && forall|j: int|
            0 <= j < order@.len() ==> order@[j] == j,
        query@.len() > 0 ==> {
            &&& forall|j: int|
                0 <= j < order@.len() ==> #[trigger] order@[j] < texts@.len() && relevance_of(
                    query@,
                    texts@[order@[j] as int]@,
                ) is Some
            &&& forall|i: int|
                0 <= i < texts@.len() && relevance_of(query@, (#[trigger] texts@[i])@) is Some
                    ==> order@.contains(i as usize)
            &&& forall|j1: int, j2: int|
                0 <= j1 < j2 < order@.len() ==> #[trigger] order@[j1] != #[trigger] order@[j2] && {
                    let r1 = relevance_of(query@, texts@[order@[j1] as int]@)->0;
                    let r2 = relevance_of(query@, texts@[order@[j2] as int]@)->0;
                    r1 > r2 || (r1 == r2 && order@[j1] < order@[j2])
                }
        },
{
    let n = texts.len();
    if query.unicode_len() == 0 {
        let mut order: Vec<usize> = Vec::new();
        let mut i: usize = 0;
        while i < n
            invariant
                i <= n,
                order@.len() == i,
                forall|j: int| 0 <= j < i ==> order@[j] == j,
            decreases n - i,
        {
            order.push(i);
            i = i + 1;
        }
        return order;
    }
    let rels = fuzzy_scores(texts, query);
    let mut keys: Vec<RankKey> = Vec::new();
    let mut i: usize = 0;
    while i < n
        invariant
            n == texts@.len(),
            rels@.len() == n,
            forall|t: int|
                0 <= t < n ==> rels@[t] == relevance_of(query@, (#[trigger] texts@[t])@),
            i <= n,
            keys@.len() == i,
            forall|t: int| 0 <= t < i ==> (#[trigger] keys@[t]).idx == t,
            forall|t: int| 0 <= t < i ==> (#[trigger] keys@[t]).r3 == 0,
            forall|t: int| 0 <= t < i ==> (#[trigger] keys@[t]).name@.len() == 0,
            forall|t: int|
                0 <= t < i ==> match rels@[t] {
                    Some(rel) => (#[trigger] keys@[t]).r1 == u32::MAX - rel && keys@[t].r2 == 0,
                    None => (#[trigger] keys@[t]).r1 == u32::MAX && keys@[t].r2 == 2,
                },
        decreases n - i,
    {
        let key = match rels[i] {
            Some(rel) => RankKey {
                r1: u32::MAX - rel,
                r2: 0,
                r3: 0,
                name: String::new(),
                idx: i,
            },
            None => RankKey { r1: u32::MAX, r2: 2, r3: 0, name: String::new(), idx: i },
        };
        keys.push(key);
        i = i + 1;
    }
    let ghost keyseq = keys@;
    let full = sort_to_indices(keys);
    // keep the matching indices, in sorted order
    let mut order: Vec<usize> = Vec::new();
    let ghost mut src: Seq<int> = Seq::empty();
    let mut t: usize = 0;
    while t < full.len()
        invariant
            n == texts@.len(),
            rels@.len() == n,
            forall|u: int|
                0 <= u < n ==> rels@[u] == relevance_of(query@, (#[trigger] texts@[u])@),
            keyseq.len() == n,
            forall|u: int| 0 <= u < n ==> (#[trigger] keyseq[u]).idx == u,
            forall|u: int|
                0 <= u < n ==> match rels@[u] {
                    Some(rel) => (#[trigger] keyseq[u]).r1 == u32::MAX - rel && keyseq[u].r2 == 0,
                    None => (#[trigger] keyseq[u]).r1 == u32::MAX && keyseq[u].r2 == 2,
                },
            forall|u: int| 0 <= u < n ==> (#[trigger] keyseq[u]).r3 == 0,
            forall|u: int| 0 <= u < n ==> (#[trigger] keyseq[u]).name@.len() == 0,
            full@.len() == n,
            forall|j: int| 0 <= j < n ==> (#[trigger] full@[j]) < n,
            forall|j1: int, j2: int|
                0 <= j1 < j2 < n ==> key_le(
                    keyseq[#[trigger] full@[j1] as int],
                    keyseq[#[trigger] full@[j2] as int],
                ) && full@[j1] != full@[j2],
            forall|u: usize| 0 <= u < n ==> full@.contains(u),
            t <= n,
            src.len() == order@.len(),
            forall|j: int|
                0 <= j < order@.len() ==> 0 <= #[trigger] src[j] < t && order@[j] == full@[src[j]],
            forall|j1: int, j2: int| 0 <= j1 < j2 < order@.len() ==> src[j1] < src[j2],
            forall|j: int| 0 <= j < order@.len() ==> (#[trigger] order@[j]) < n,
            forall|j: int|
                0 <= j < order@.len() ==> rels@[#[trigger] order@[j] as int] is Some,
            forall|j: int|
                0 <= j < t && rels@[#[trigger] full@[j] as int] is Some ==> exists|u: int|
                    0 <= u < order@.len() && order@[u] == full@[j],
        decreases full@.len() - t,
    {
        let idx = full[t];
        let ghost order0 = order@;
        if rels[idx].is_some() {
            proof {
                src = src.push(t as int);
            }
            order.push(idx);
            proof {
                assert forall|j: int|
                    0 <= j < t + 1 && rels@[#[trigger] full@[j] as int] is Some implies exists|
                    u: int,
                |
                    0 <= u < order@.len() && order@[u] == full@[j] by {
                    if j == t {
                        assert(order@[order@.len() - 1] == full@[j]);
                    } else {
                        let u = choose|u: int| 0 <= u < order0.len() && order0[u] == full@[j];
                        assert(order@[u] == full@[j]);
                    }
                }
            }
        }
        t = t + 1;
    }
    proof {
        assert forall|i2: int|
            0 <= i2 < texts@.len() && relevance_of(query@, (#[trigger] texts@[i2])@)
                is Some implies order@.contains(i2 as usize) by {
            assert(full@.contains(i2 as usize));
            let j = choose|j: int| 0 <= j < full@.len() && full@[j] == i2 as usize;
            assert(rels@[full@[j] as int] is Some);
            let u = choose|u: int| 0 <= u < order@.len() && order@[u] == full@[j];
            assert(order@[u] == i2 as usize);
        }
        assert forall|j1: int, j2: int| 0 <= j1 < j2 < order@.len() implies #[trigger] order@[j1]
            != #[trigger] order@[j2] && {
            let r1 = relevance_of(query@, texts@[order@[j1] as int]@)->0;
            let r2 = relevance_of(query@, texts@[order@[j2] as int]@)->0;
            r1 > r2 || (r1 == r2 && order@[j1] < order@[j2])
        } by {
            let s1 = src[j1];
            let s2 = src[j2];
            assert(order@[j1] == full@[s1]);
            assert(order@[j2] == full@[s2]);
            assert(key_le(keyseq[full@[s1] as int], keyseq[full@[s2] as int]) && full@[s1]
                != full@[s2]);
            let k1 = keyseq[order@[j1] as int];
            let k2 = keyseq[order@[j2] as int];
            assert(k1.name@ =~= k2.name@);
            assert(key_le(k1, k2));
        }
    }
    order
}

} // verus!
