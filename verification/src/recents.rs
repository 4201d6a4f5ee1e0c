//! The recency store: one record per executed script key, bounded at
//! `MAX_RECENTS` records. Recording an execution bumps the key's record (or
//! creates it with a count of one), and when the store would grow past its
//! bound, the record with the lowest frecency score at that moment is evicted.

use vstd::prelude::*;
use crate::frecency::spec_score;
use crate::frecency::frecency_score;
use crate::strutil::str_eq;

verus! {

/// Usage record of one script key.
pub struct RecentEntry {
    /// The script's stable identity string.
    pub key: String,
    /// Unix timestamp of the last execution, in milliseconds.
    pub last_run: u64,
    /// How many times the script has been executed.
    pub count: u32,
}

/// Upper bound on the number of records the store keeps.
pub const MAX_RECENTS: usize = 100;

/// The mathematical content of one record: key characters, timestamp, count.
pub type RecModel = (Seq<char>, u64, u32);

/// The mathematical content of one record.
pub open spec fn entry_model(e: RecentEntry) -> RecModel {
    (e.key@, e.last_run, e.count)
}

/// The mathematical content of the whole store.
pub open spec fn store_model(s: Seq<RecentEntry>) -> Seq<RecModel> {
    s.map_values(|e: RecentEntry| entry_model(e))
}

/// The frecency score of one record model at a given time.
pub open spec fn model_score(m: RecModel, now_ms: u64) -> int {
    spec_score(m.2, m.1, now_ms)
}

/// Index of the first record with the given key, or -1 if none has it.
pub open spec fn first_with_key(m: Seq<RecModel>, key: Seq<char>) -> int
    decreases m.len(),
{
    if m.len() == 0 {
        -1
    } else if m[0].0 == key {
        0
    } else {
        let r = first_with_key(m.drop_first(), key);
        if r < 0 {
            -1
        } else {
            r + 1
        }
    }
}

/// Index of the last record with the given key, or -1 if none has it.
pub open spec fn last_with_key(m: Seq<RecModel>, key: Seq<char>) -> int
    decreases m.len(),
{
    if m.len() == 0 {
        -1
    } else if m.last().0 == key {
        m.len() - 1
    } else {
        last_with_key(m.drop_last(), key)
    }
}

/// A count bump that cannot overflow: sticks at the maximum.
pub open spec fn inc_count(c: u32) -> u32 {
    if c == u32::MAX {
        c
    } else {
        (c + 1) as u32
    }
}

/// Index of the lowest-scoring record among the first `upto`; the earliest
/// such record on ties.
pub open spec fn lowest_index(m: Seq<RecModel>, now_ms: u64, upto: int) -> int
    decreases upto,
{
    if upto <= 1 {
        0
    } else {
        let b = lowest_index(m, now_ms, upto - 1);
        if model_score(m[upto - 1], now_ms) < model_score(m[b], now_ms) {
            upto - 1
        } else {
            b
        }
    }
}

/// What recording one execution does to the store: bump or create the key's
/// record, then evict the lowest-scoring record if the bound is exceeded.
pub open spec fn spec_record(m: Seq<RecModel>, key: Seq<char>, now_ms: u64) -> Seq<RecModel> {
    let i = first_with_key(m, key);
    let upd = if i >= 0 {
        m.update(i, (key, now_ms, inc_count(m[i].2)))
    } else {
        m.push((key, now_ms, 1u32))
    };
    if upd.len() > MAX_RECENTS {
        upd.remove(lowest_index(upd, now_ms, upd.len() as int))
    } else {
        upd
    }
}

/// `first_with_key` returns either -1 with no match anywhere, or the position
/// of the earliest match.
pub proof fn lemma_first_with_key(m: Seq<RecModel>, key: Seq<char>)
    ensures
        first_with_key(m, key) >= 0 ==> {
            &&& first_with_key(m, key) < m.len()
            &&& m[first_with_key(m, key)].0 == key
            &&& forall|j: int| 0 <= j < first_with_key(m, key) ==> m[j].0 != key
        },
        first_with_key(m, key) < 0 ==> forall|j: int| 0 <= j < m.len() ==> m[j].0 != key,
    decreases m.len(),
{
    if m.len() == 0 {
    } else if m[0].0 == key {
    } else {
        lemma_first_with_key(m.drop_first(), key);
        assert forall|j: int| 1 <= j < m.len() implies m.drop_first()[j - 1] == m[j] by {}
    }
}

/// `last_with_key` returns either -1 with no match anywhere, or the position
/// of the latest match.
pub proof fn lemma_last_with_key(m: Seq<RecModel>, key: Seq<char>)
    ensures
        last_with_key(m, key) >= 0 ==> {
            &&& last_with_key(m, key) < m.len()
            &&& m[last_with_key(m, key)].0 == key
            &&& forall|j: int| last_with_key(m, key) < j < m.len() ==> m[j].0 != key
        },
        last_with_key(m, key) < 0 ==> forall|j: int| 0 <= j < m.len() ==> m[j].0 != key,
    decreases m.len(),
{
    if m.len() == 0 {
    } else if m.last().0 == key {
    } else {
        lemma_last_with_key(m.drop_last(), key);
        assert forall|j: int| 0 <= j < m.len() - 1 implies m.drop_last()[j] == m[j] by {}
    }
}

/// The lowest index really is in range and really scores lowest, earliest
/// among equals.
pub proof fn lemma_lowest_index(m: Seq<RecModel>, now_ms: u64, upto: int)
    requires
        1 <= upto <= m.len(),
    ensures
        0 <= lowest_index(m, now_ms, upto) < upto,
        forall|j: int|
            0 <= j < upto ==> model_score(m[lowest_index(m, now_ms, upto)], now_ms)
                <= model_score(#[trigger] m[j], now_ms),
        forall|j: int|
            0 <= j < lowest_index(m, now_ms, upto) ==> model_score(
                m[lowest_index(m, now_ms, upto)],
                now_ms,
            ) < model_score(#[trigger] m[j], now_ms),
    decreases upto,
{
    if upto > 1 {
        lemma_lowest_index(m, now_ms, upto - 1);
    }
}

/// Recording into a full store evicts exactly one record, and the one it
/// evicts scores no higher than anything in the store at that moment: the
/// result keeps `MAX_RECENTS` records and drops the earliest lowest-scoring
/// one.
pub proof fn lemma_record_eviction(m: Seq<RecModel>, key: Seq<char>, now_ms: u64)
    requires
        m.len() == MAX_RECENTS,
        first_with_key(m, key) < 0,
    ensures
        ({
            let upd = m.push((key, now_ms, 1u32));
            let b = lowest_index(upd, now_ms, upd.len() as int);
            &&& spec_record(m, key, now_ms) == upd.remove(b)
            &&& spec_record(m, key, now_ms).len() == MAX_RECENTS
            &&& 0 <= b < upd.len()
            &&& forall|j: int|
                0 <= j < upd.len() ==> model_score(upd[b], now_ms) <= model_score(
                    #[trigger] upd[j],
                    now_ms,
                )
        }),
{
    let upd = m.push((key, now_ms, 1u32));
    lemma_lowest_index(upd, now_ms, upd.len() as int);
}

/// After recording an execution of `key` into a store within its bound, a
/// record for `key` is present — provided that, when the store was full and
/// the key new, some existing record scored no higher than a fresh one (the
/// one case in which the fresh record itself would be the unique eviction
/// candidate).
pub proof fn lemma_record_key_present(m: Seq<RecModel>, key: Seq<char>, now_ms: u64)
    requires
        m.len() <= MAX_RECENTS,
        first_with_key(m, key) >= 0 || m.len() < MAX_RECENTS || exists|j: int|
            0 <= j < m.len() && model_score(#[trigger] m[j], now_ms) <= spec_score(
                1u32,
                now_ms,
                now_ms,
            ),
    ensures
        exists|j: int|
            0 <= j < spec_record(m, key, now_ms).len() && (#[trigger] spec_record(
                m,
                key,
                now_ms,
            )[j]).0 == key,
{
    let out = spec_record(m, key, now_ms);
    let i = first_with_key(m, key);
    lemma_first_with_key(m, key);
    if i >= 0 {
        let upd = m.update(i, (key, now_ms, inc_count(m[i].2)));
        assert(out == upd);
        assert(out[i].0 == key);
    } else {
        let upd = m.push((key, now_ms, 1u32));
        let last = m.len() as int;
        assert(upd[last].0 == key);
        if m.len() < MAX_RECENTS {
            assert(out == upd);
        } else {
            let b = lowest_index(upd, now_ms, upd.len() as int);
            lemma_lowest_index(upd, now_ms, upd.len() as int);
            let j = choose|j: int|
                0 <= j < m.len() && model_score(#[trigger] m[j], now_ms) <= spec_score(
                    1u32,
                    now_ms,
                    now_ms,
                );
            assert(upd[j] == m[j]);
            assert(model_score(upd[j], now_ms) <= model_score(upd[last], now_ms));
            assert(b != last) by {
                if b == last {
                    assert(model_score(upd[b], now_ms) < model_score(upd[j], now_ms));
                }
            }
            assert(out == upd.remove(b));
            if b < last {
                assert(out[last - 1].0 == key);
            }
        }
    }
}

/// Updating one store entry updates the same position of the model.
proof fn lemma_model_update(s: Seq<RecentEntry>, i: int, e: RecentEntry)
    requires
        0 <= i < s.len(),
    ensures
        store_model(s.update(i, e)) =~= store_model(s).update(i, entry_model(e)),
{
}

/// Appending a store entry appends its model.
proof fn lemma_model_push(s: Seq<RecentEntry>, e: RecentEntry)
    ensures
        store_model(s.push(e)) =~= store_model(s).push(entry_model(e)),
{
}

/// Removing a store entry removes the same position of the model.
proof fn lemma_model_remove(s: Seq<RecentEntry>, i: int)
    requires
        0 <= i < s.len(),
    ensures
        store_model(s.remove(i)) =~= store_model(s).remove(i),
{
}

/// Records one execution of `key` at the given time: the key's record is
/// bumped (count up by one, saturating; timestamp refreshed) or created with
/// a count of one, and if the store then exceeds `MAX_RECENTS` records, the
/// earliest lowest-scoring record is evicted. A store within its bound stays
/// within it.
pub fn record_execution_at(recents: &mut Vec<RecentEntry>, key: &str, now_ms: u64)
    ensures
        store_model(final(recents)@) == spec_record(store_model(old(recents)@), key@, now_ms),
        old(recents)@.len() <= MAX_RECENTS ==> final(recents)@.len() <= MAX_RECENTS,
        final(recents)@.len() >= 1,
{
    let ghost m0 = store_model(recents@);
    let n = recents.len();
    let mut i: usize = 0;
    let mut found = false;
    while i < n && !found
        invariant
            n == recents@.len(),
            m0 == store_model(recents@),
            i <= n,
            !found ==> forall|j: int| 0 <= j < i ==> m0[j].0 != key@,
            found ==> i < n && m0[i as int].0 == key@ && forall|j: int|
                0 <= j < i ==> m0[j].0 != key@,
        decreases n - i + (if found { 0int } else { 1int }),
    {
        if str_eq(recents[i].key.as_str(), key) {
            found = true;
        } else {
            i = i + 1;
        }
    }
    proof {
        lemma_first_with_key(m0, key@);
    }
    if found {
        proof {
            // the scan found the earliest match, so it is `first_with_key`
            let f = first_with_key(m0, key@);
            assert(f == i as int) by {
                if f < i as int {
                    assert(m0[f].0 != key@);
                } else if f > i as int {
                    assert(m0[i as int].0 != key@);
                }
            }
        }
        let cnt = recents[i].count;
        let bumped: u32 = if cnt == u32::MAX {
            cnt
        } else {
            cnt + 1
        };
        let e = vstd::std_specs::vec::vec_index_mut(recents, i);
        e.last_run = now_ms;
        e.count = bumped;
        proof {
            lemma_model_update(old(recents)@, i as int, recents@[i as int]);
        }
    } else {
        proof {
            assert(first_with_key(m0, key@) < 0) by {
                if first_with_key(m0, key@) >= 0 {
                    assert(m0[first_with_key(m0, key@)].0 != key@);
                }
            }
        }
        let entry = RecentEntry { key: key.to_owned(), last_run: now_ms, count: 1 };
        proof {
            lemma_model_push(recents@, entry);
        }
        recents.push(entry);
    }
    let ghost upd = store_model(recents@);
    if recents.len() > MAX_RECENTS {
        let len = recents.len();
        let mut best: usize = 0;
        let mut best_score: u64 = frecency_score(recents[0].count, recents[0].last_run, now_ms);
        let mut j: usize = 1;
        while j < len
            invariant
                len == recents@.len(),
                upd == store_model(recents@),
                len >= 1,
                1 <= j <= len,
                best < j,
                best as int == lowest_index(upd, now_ms, j as int),
                best_score as int == model_score(upd[best as int], now_ms),
            decreases len - j,
        {
            let s = frecency_score(recents[j].count, recents[j].last_run, now_ms);
            if s < best_score {
                best = j;
                best_score = s;
            }
            j = j + 1;
        }
        proof {
            lemma_model_remove(recents@, best as int);
        }
        recents.remove(best);
    }
}

/// Reads the wall clock.
///
/// Relies on `std::time::SystemTime::now`: the result is the current time as
/// milliseconds since the Unix epoch (zero if the clock reads before it).
/// Nothing can be promised of a clock reading.
#[verifier::external_body]
pub fn now_ms() -> u64 {
    std::time::SystemTime::now()
        .duration_since(std::time::UNIX_EPOCH)
        .map(|d| d.as_millis() as u64)
        .unwrap_or(0)
}

/// Records one execution of `key` at the current wall-clock time, as
/// `record_execution_at` does at some time the clock reported.
pub fn record_execution(recents: &mut Vec<RecentEntry>, key: &str)
    ensures
        exists|now_ms: u64|
            store_model(final(recents)@) == spec_record(
                store_model(old(recents)@),
                key@,
                now_ms,
            ),
        old(recents)@.len() <= MAX_RECENTS ==> final(recents)@.len() <= MAX_RECENTS,
        final(recents)@.len() >= 1,
{
    let now = now_ms();
    record_execution_at(recents, key, now);
}

/// The frecency score a store assigns to a key at a given time: the score of
/// the key's record (the last one, should duplicates ever be loaded), or 0
/// for a key that is not tracked.
pub open spec fn spec_score_of(m: Seq<RecModel>, key: Seq<char>, now_ms: u64) -> int {
    let i = last_with_key(m, key);
    if i >= 0 {
        model_score(m[i], now_ms)
    } else {
        0
    }
}

/// Looks up the frecency score of `key` in the store at the given time;
/// untracked keys score 0.
pub fn score_of(recents: &Vec<RecentEntry>, key: &str, now_ms: u64) -> (score: u64)
    ensures
        score as int == spec_score_of(store_model(recents@), key@, now_ms),
{
    let ghost m = store_model(recents@);
    let n = recents.len();
    let mut j: usize = n;
    while j > 0
        invariant
            n == recents@.len(),
            m == store_model(recents@),
            j <= n,
            forall|t: int| j <= t < n ==> m[t].0 != key@,
        decreases j,
    {
        j = j - 1;
        if str_eq(recents[j].key.as_str(), key) {
            proof {
                lemma_last_with_key(m, key@);
                let l = last_with_key(m, key@);
                assert(l == j as int) by {
                    if l > j as int {
                        assert(m[l].0 != key@);
                    } else if l < j as int {
                        assert(m[j as int].0 != key@);
                    }
                }
            }
            return frecency_score(recents[j].count, recents[j].last_run, now_ms);
        }
    }
    proof {
        lemma_last_with_key(m, key@);
        assert(last_with_key(m, key@) < 0) by {
            if last_with_key(m, key@) >= 0 {
                assert(m[last_with_key(m, key@)].0 != key@);
            }
        }
    }
    0
}

} // verus!
