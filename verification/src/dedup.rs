//! First-wins deduplication.
//!
//! An at-least-once transport may deliver the same logical message any number
//! of times. Every stage that must emit one output per logical key routes the
//! key through a [`FirstWins`] gate: the first occurrence of a key is
//! admitted, every later occurrence is refused. The two-phase commit
//! coordinator uses one gate per stage (one logical `Decision` and one
//! logical `Done` per transaction id), and vote aggregation uses one keyed by
//! participant identity.

use vstd::prelude::*;

verus! {

/// A first-wins deduplication gate over `u64` keys.
pub struct FirstWins {
    seen: Vec<u64>,
}

impl FirstWins {
    /// The set of keys this gate has already admitted.
    pub closed spec fn seen_set(self) -> Set<u64> {
        self.seen@.to_set()
    }

    /// A fresh gate that has admitted nothing.
    pub fn new() -> (gate: FirstWins)
        ensures
            gate.seen_set() == Set::<u64>::empty(),
    {
        let gate = FirstWins { seen: Vec::new() };
        proof {
            assert(gate.seen_set() =~= Set::<u64>::empty());
        }
        gate
    }

    /// Whether `key` has been admitted before.
    pub fn contains(&self, key: u64) -> (r: bool)
        ensures
            r == self.seen_set().contains(key),
    {
        let mut i: usize = 0;
        while i < self.seen.len()
            invariant
                i <= self.seen.len(),
                forall|j: int| 0 <= j < i ==> self.seen@[j] != key,
            decreases self.seen.len() - i,
        {
            if self.seen[i] == key {
                assert(self.seen@.contains(key));
                return true;
            }
            i += 1;
        }
        assert(!self.seen@.contains(key));
        false
    }

    /// Admit `key` if it is unseen; report whether it was fresh.
    pub fn offer(&mut self, key: u64) -> (fresh: bool)
        ensures
            fresh == !old(self).seen_set().contains(key),
            final(self).seen_set() == old(self).seen_set().insert(key),
    {
        if self.contains(key) {
            proof {
                assert(self.seen_set() =~= self.seen_set().insert(key));
            }
            false
        } else {
            self.seen.push(key);
            proof {
                let s0 = old(self).seen@;
                let s1 = self.seen@;
                assert forall|x: u64| s1.contains(x) implies (s0.contains(x) || x == key) by {
                    let i = choose|i: int| 0 <= i < s1.len() && s1[i] == x;
                    if i < s0.len() {
                        assert(s0[i] == x);
                    }
                }
                assert(s1[s0.len() as int] == key);
                assert forall|x: u64| s0.contains(x) implies s1.contains(x) by {
                    let i = choose|i: int| 0 <= i < s0.len() && s0[i] == x;
                    assert(s1[i] == x);
                }
                assert(self.seen_set() =~= old(self).seen_set().insert(key));
            }
            true
        }
    }
}

} // verus!
