//! The favorite set: the keys the user pinned. Membership is by key text;
//! toggling adds an absent key and removes a present one.

use vstd::prelude::*;
use crate::strutil::str_eq;
use crate::strutil::clone_str;

verus! {

/// A set of pinned script keys.
pub struct FavoriteSet {
    keys: Vec<String>,
}

impl FavoriteSet {
    /// Whether the set holds this key.
    pub closed spec fn spec_contains(&self, key: Seq<char>) -> bool {
        exists|i: int| 0 <= i < self.keys@.len() && (#[trigger] self.keys@[i])@ == key
    }

    /// The empty set.
    pub fn new() -> (s: FavoriteSet)
        ensures
            forall|k: Seq<char>| !s.spec_contains(k),
    {
        FavoriteSet { keys: Vec::new() }
    }

    /// Membership test.
    pub fn contains(&self, key: &str) -> (r: bool)
        ensures
            r == self.spec_contains(key@),
    {
        let n = self.keys.len();
        let mut i: usize = 0;
        while i < n
            invariant
                n == self.keys@.len(),
                i <= n,
                forall|j: int| 0 <= j < i ==> (#[trigger] self.keys@[j])@ != key@,
            decreases n - i,
        {
            if str_eq(self.keys[i].as_str(), key) {
                return true;
            }
            i = i + 1;
        }
        false
    }

    /// The stored keys, for persistence.
    pub fn keys(&self) -> (r: &Vec<String>)
        ensures
            forall|k: Seq<char>|
                self.spec_contains(k) == exists|i: int|
                    0 <= i < r@.len() && (#[trigger] r@[i])@ == k,
    {
        &self.keys
    }

    /// The number of stored keys.
    pub fn len(&self) -> usize {
        self.keys.len()
    }
}

/// Toggles a key: a key not in the set is added (returning true), a key in
/// the set is removed (returning false). No other key's membership changes.
#[verifier::rlimit(50)]
pub fn toggle_favorite(favorites: &mut FavoriteSet, key: &str) -> (added: bool)
    ensures
        added == !old(favorites).spec_contains(key@),
        final(favorites).spec_contains(key@) == added,
        forall|k: Seq<char>|
            k != key@ ==> final(favorites).spec_contains(k) == old(favorites).spec_contains(k),
{
    if favorites.contains(key) {
        // remove every occurrence of the key
        let mut kept: Vec<String> = Vec::new();
        let n = favorites.keys.len();
        let mut i: usize = 0;
        while i < n
            invariant
                n == favorites.keys@.len(),
                i <= n,
                forall|j: int| 0 <= j < kept@.len() ==> (#[trigger] kept@[j])@ != key@,
                forall|j: int|
                    0 <= j < kept@.len() ==> exists|t: int|
                        0 <= t < i && (#[trigger] kept@[j])@ == (favorites.keys@[t])@,
                forall|t: int|
                    0 <= t < i && (#[trigger] favorites.keys@[t])@ != key@ ==> exists|j: int|
                        0 <= j < kept@.len() && (kept@[j])@ == (favorites.keys@[t])@,
            decreases n - i,
        {
            let ghost kept0 = kept@;
            if !str_eq(favorites.keys[i].as_str(), key) {
                let s = clone_str(&favorites.keys[i]);
                kept.push(s);
                proof {
                    assert forall|t: int|
                        0 <= t < i + 1 && (#[trigger] favorites.keys@[t])@
                            != key@ implies exists|j: int|
                        0 <= j < kept@.len() && (kept@[j])@ == (favorites.keys@[t])@ by {
                        if t < i {
                            let j = choose|j: int|
                                0 <= j < kept0.len() && (kept0[j])@ == (favorites.keys@[t])@;
                            assert(kept@[j]@ == favorites.keys@[t]@);
                        } else {
                            assert(kept@[kept@.len() - 1]@ == favorites.keys@[t]@);
                        }
                    }
                    assert forall|j: int| 0 <= j < kept@.len() implies exists|t: int|
                        0 <= t < i + 1 && (#[trigger] kept@[j])@ == (favorites.keys@[t])@ by {
                        if j < kept@.len() - 1 {
                            let t = choose|t: int|
                                0 <= t < i && (#[trigger] kept0[j])@ == (favorites.keys@[t])@;
                            assert(kept@[j]@ == favorites.keys@[t]@);
                        } else {
                            assert(kept@[j]@ == favorites.keys@[i as int]@);
                        }
                    }
                }
            }
            i = i + 1;
        }
        let ghost oldkeys = favorites.keys@;
        favorites.keys = kept;
        proof {
            assert(!favorites.spec_contains(key@));
            assert forall|k: Seq<char>| k != key@ implies favorites.spec_contains(k)
                == old(favorites).spec_contains(k) by {
                if favorites.spec_contains(k) {
                    let j = choose|j: int|
                        0 <= j < favorites.keys@.len() && (#[trigger] favorites.keys@[j])@ == k;
                    let t = choose|t: int|
                        0 <= t < n && (#[trigger] favorites.keys@[j])@ == (oldkeys[t])@;
                    assert(old(favorites).keys@[t]@ == k);
                }
                if old(favorites).spec_contains(k) {
                    let t = choose|t: int|
                        0 <= t < oldkeys.len() && (#[trigger] oldkeys[t])@ == k;
                    let j = choose|j: int|
                        0 <= j < favorites.keys@.len() && (favorites.keys@[j])@ == (oldkeys[t])@;
                    assert(favorites.keys@[j]@ == k);
                }
            }
        }
        false
    } else {
        let ghost f0 = *favorites;
        favorites.keys.push(key.to_owned());
        proof {
            let n = favorites.keys@.len();
            assert(favorites.keys@[n - 1]@ == key@);
            assert(favorites.spec_contains(key@));
            assert forall|k: Seq<char>| k != key@ implies favorites.spec_contains(k)
                == f0.spec_contains(k) by {
                if favorites.spec_contains(k) {
                    let j = choose|j: int|
                        0 <= j < favorites.keys@.len() && (#[trigger] favorites.keys@[j])@ == k;
                    assert(f0.keys@[j]@ == k);
                }
                if f0.spec_contains(k) {
                    let j = choose|j: int|
                        0 <= j < f0.keys@.len() && (#[trigger] f0.keys@[j])@ == k;
                    assert(favorites.keys@[j]@ == k);
                }
            }
        }
        true
    }
}

/// Builds the favorite set from persisted `(key, pinned)` pairs: exactly the
/// keys paired with `true` anywhere are members.
pub fn favorites_from_pairs(pairs: &Vec<(String, bool)>) -> (s: FavoriteSet)
    ensures
        forall|k: Seq<char>|
            s.spec_contains(k) == exists|i: int|
                0 <= i < pairs@.len() && (#[trigger] pairs@[i]).0@ == k && pairs@[i].1,
{
    let mut s = FavoriteSet { keys: Vec::new() };
    let n = pairs.len();
    let mut i: usize = 0;
    while i < n
        invariant
            n == pairs@.len(),
            i <= n,
            forall|k: Seq<char>|
                s.spec_contains(k) == exists|j: int|
                    0 <= j < i && (#[trigger] pairs@[j]).0@ == k && pairs@[j].1,
        decreases n - i,
    {
        let ghost s0 = s;
        if pairs[i].1 {
            let key = clone_str(&pairs[i].0);
            s.keys.push(key);
            proof {
                let ghost pi = pairs@[i as int].0@;
                assert forall|k: Seq<char>| s.spec_contains(k) == (s0.spec_contains(k) || pi
                    == k) by {
                    if s0.spec_contains(k) {
                        let j = choose|j: int|
                            0 <= j < s0.keys@.len() && (#[trigger] s0.keys@[j])@ == k;
                        assert(s.keys@[j]@ == k);
                    }
                    if pairs@[i as int].0@ == k {
                        assert(s.keys@[s.keys@.len() - 1]@ == k);
                    }
                    if s.spec_contains(k) {
                        let j = choose|j: int|
                            0 <= j < s.keys@.len() && (#[trigger] s.keys@[j])@ == k;
                        if j < s.keys@.len() - 1 {
                            assert(s0.keys@[j]@ == k);
                        }
                    }
                }
            }
        }
        i = i + 1;
    }
    s
}

} // verus!
