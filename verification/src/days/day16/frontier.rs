//! The frontier of the search: pending (cost, state) entries, handed out
//! cheapest first.

use vstd::prelude::*;
use vstd::multiset::Multiset;

verus! {

/// A bag of (cost, state number) entries from which a cheapest is taken.
pub struct Frontier {
    entries: Vec<(usize, usize)>,
}

impl View for Frontier {
    type V = Multiset<(usize, usize)>;

    closed spec fn view(&self) -> Multiset<(usize, usize)> {
        self.entries@.to_multiset()
    }
}

impl Frontier {
    /// A frontier that holds nothing.
    pub fn new() -> (made: Frontier)
        ensures
            made@ =~= Multiset::empty(),
    {
        let made = Frontier { entries: Vec::new() };
        proof {
            broadcast use vstd::seq_lib::group_to_multiset_ensures;
            assert(made.entries@ =~= Seq::empty());
            assert(made@.len() == 0);
            vstd::multiset::lemma_multiset_empty_len(made@);
        }
        made
    }

    /// How many entries the frontier holds.
    pub fn len(&self) -> (len: usize)
        ensures
            len == self@.len(),
    {
        proof {
            broadcast use vstd::seq_lib::group_to_multiset_ensures;
        }
        self.entries.len()
    }

    /// Adds an entry; entries may repeat.
    pub fn push(&mut self, cost: usize, state: usize)
        ensures
            final(self)@ =~= old(self)@.insert((cost, state)),
    {
        proof {
            vstd::seq_lib::to_multiset_build(self.entries@, (cost, state));
        }
        self.entries.push((cost, state));
    }

    /// Takes out an entry of least cost, if there is any entry.
    pub fn pop_min(&mut self) -> (taken: Option<(usize, usize)>)
        ensures
            match taken {
                None => old(self)@.len() == 0 && final(self)@ == old(self)@,
                Some(entry) => {
                    &&& old(self)@.contains(entry)
                    &&& final(self)@ =~= old(self)@.remove(entry)
                    &&& forall|other: (usize, usize)| #[trigger]
                        old(self)@.contains(other) ==> entry.0 <= other.0
                },
            },
    {
        proof {
            broadcast use vstd::seq_lib::group_to_multiset_ensures;
        }
        let n = self.entries.len();
        if n == 0 {
            return None;
        }
        let mut best: usize = 0;
        let mut i: usize = 1;
        while i < n
            invariant
                n == self.entries@.len(),
                0 <= best < i <= n,
                forall|j: int| 0 <= j < i ==> self.entries@[best as int].0 <= (#[trigger] self.entries@[j]).0,
            decreases n - i,
        {
            if self.entries[i].0 < self.entries[best].0 {
                best = i;
            }
            i += 1;
        }
        let ghost before = self.entries@;
        proof {
            vstd::seq_lib::to_multiset_remove(before, best as int);
            assert(before.contains(before[best as int]));
            assert forall|other: (usize, usize)| #[trigger]
                before.to_multiset().contains(other) implies before[best as int].0 <= other.0 by {
                assert(before.contains(other));
                let j = choose|j: int| 0 <= j < before.len() && before[j] == other;
                assert(before[j] == other);
            }
        }
        let entry = self.entries.remove(best);
        Some(entry)
    }
}

} // verus!
