//! Per-script history of extra argument strings: most recent first, no
//! duplicates, capped at a fixed number of entries; blank entries are not
//! recorded.

use vstd::prelude::*;
use crate::strutil::is_blank;
use crate::strutil::spec_is_blank;
use crate::strutil::str_eq;
use crate::strutil::clone_str;

verus! {

/// Upper bound on the number of history entries kept.
pub const MAX_HISTORY_ENTRIES: usize = 20;

/// The argument strings last used with a script, most recent first.
pub struct ArgsHistory {
    /// The entries, most recent first.
    pub entries: Vec<String>,
}

/// The views of the stored strings.
pub open spec fn history_model(s: Seq<String>) -> Seq<Seq<char>> {
    s.map_values(|e: String| e@)
}

/// The sequence with every occurrence of `e` removed.
pub open spec fn remove_all(s: Seq<Seq<char>>, e: Seq<char>) -> Seq<Seq<char>>
    decreases s.len(),
{
    if s.len() == 0 {
        Seq::empty()
    } else if s[0] == e {
        remove_all(s.drop_first(), e)
    } else {
        seq![s[0]] + remove_all(s.drop_first(), e)
    }
}

/// What adding one entry does to the history: a blank entry changes nothing;
/// otherwise the entry moves to the front, its duplicates leave, and the tail
/// past the cap is dropped.
pub open spec fn spec_add_entry(h: Seq<Seq<char>>, e: Seq<char>) -> Seq<Seq<char>> {
    if spec_is_blank(e) {
        h
    } else {
        let base = seq![e] + remove_all(h, e);
        if base.len() > MAX_HISTORY_ENTRIES {
            base.take(MAX_HISTORY_ENTRIES as int)
        } else {
            base
        }
    }
}

/// Removal distributes over extending the prefix by one element.
proof fn lemma_remove_all_snoc(s: Seq<Seq<char>>, e: Seq<char>, i: int)
    requires
        0 <= i < s.len(),
    ensures
        remove_all(s.take(i + 1), e) == remove_all(s.take(i), e) + (if s[i] == e {
            Seq::<Seq<char>>::empty()
        } else {
            seq![s[i]]
        }),
    decreases i,
{
    let tail = if s[i] == e {
        Seq::<Seq<char>>::empty()
    } else {
        seq![s[i]]
    };
    if i == 0 {
        assert(s.take(1) =~= seq![s[0]]);
        assert(s.take(1).drop_first() =~= Seq::<Seq<char>>::empty());
        assert(s.take(1)[0] == s[0]);
        assert(remove_all(s.take(0), e) =~= Seq::<Seq<char>>::empty());
        assert(remove_all(s.take(1).drop_first(), e) =~= Seq::<Seq<char>>::empty());
        if s[0] == e {
            assert(remove_all(s.take(1), e) =~= tail);
        } else {
            assert(remove_all(s.take(1), e) =~= seq![s[0]] + Seq::<Seq<char>>::empty());
            assert(remove_all(s.take(1), e) =~= tail);
        }
        assert(remove_all(s.take(0), e) + tail =~= tail);
    } else {
        lemma_remove_all_snoc(s.drop_first(), e, i - 1);
        assert(s.take(i + 1).drop_first() =~= s.drop_first().take(i));
        assert(s.take(i).drop_first() =~= s.drop_first().take(i - 1));
        assert(s.take(i + 1)[0] == s[0]);
        assert(s.take(i)[0] == s[0]);
        assert(s.drop_first()[i - 1] == s[i]);
        if s[0] == e {
            assert(remove_all(s.take(i + 1), e) =~= remove_all(s.drop_first().take(i), e));
            assert(remove_all(s.take(i), e) + tail =~= remove_all(s.drop_first().take(i - 1), e)
                + tail);
        } else {
            assert(remove_all(s.take(i + 1), e) =~= seq![s[0]] + remove_all(
                s.drop_first().take(i),
                e,
            ));
            assert(remove_all(s.take(i), e) + tail =~= seq![s[0]] + (remove_all(
                s.drop_first().take(i - 1),
                e,
            ) + tail));
        }
    }
}

impl ArgsHistory {
    /// An empty history.
    pub fn new() -> (h: ArgsHistory)
        ensures
            h.entries@.len() == 0,
    {
        ArgsHistory { entries: Vec::new() }
    }

    /// Adds an entry: it moves to the front, duplicates of it leave, blank
    /// entries are ignored, and the history is capped at
    /// `MAX_HISTORY_ENTRIES`.
    pub fn add_entry(&mut self, entry: String)
        ensures
            history_model(final(self).entries@) == spec_add_entry(
                history_model(old(self).entries@),
                entry@,
            ),
    {
        let ghost h0 = history_model(self.entries@);
        if is_blank(entry.as_str()) {
            return ;
        }
        let n = self.entries.len();
        let mut kept: Vec<String> = Vec::new();
        let mut i: usize = 0;
        proof {
            assert(history_model(kept@) =~= remove_all(h0.take(0), entry@));
        }
        while i < n
            invariant
                n == self.entries@.len(),
                h0 == history_model(self.entries@),
                i <= n,
                history_model(kept@) == remove_all(h0.take(i as int), entry@),
            decreases n - i,
        {
            let ghost kept0 = history_model(kept@);
            if !str_eq(self.entries[i].as_str(), entry.as_str()) {
                let s = clone_str(&self.entries[i]);
                kept.push(s);
                proof {
                    assert(history_model(kept@) =~= kept0 + seq![h0[i as int]]);
                }
            }
            proof {
                lemma_remove_all_snoc(h0, entry@, i as int);
                assert(h0[i as int] == self.entries@[i as int]@);
                if h0[i as int] == entry@ {
                    assert(history_model(kept@) =~= remove_all(h0.take(i as int), entry@)
                        + Seq::<Seq<char>>::empty());
                }
            }
            i = i + 1;
        }
        proof {
            assert(h0.take(n as int) =~= h0);
        }
        let mut newv: Vec<String> = Vec::new();
        newv.push(entry);
        newv.append(&mut kept);
        proof {
            assert(history_model(newv@) =~= seq![entry@] + remove_all(h0, entry@));
        }
        if newv.len() > MAX_HISTORY_ENTRIES {
            newv.truncate(MAX_HISTORY_ENTRIES);
            proof {
                assert(history_model(newv@) =~= (seq![entry@] + remove_all(h0, entry@)).take(
                    MAX_HISTORY_ENTRIES as int,
                ));
            }
        }
        self.entries = newv;
    }

    /// The entries, most recent first.
    pub fn get_entries(&self) -> (r: &Vec<String>)
        ensures
            r@ == self.entries@,
    {
        &self.entries
    }
}

impl Default for ArgsHistory {
    /// An empty history.
    fn default() -> (h: ArgsHistory)
        ensures
            h.entries@.len() == 0,
    {
        ArgsHistory { entries: Vec::new() }
    }
}

} // verus!
