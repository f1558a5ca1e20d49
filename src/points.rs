use vstd::prelude::*;
use vstd::set_lib::{lemma_int_range, lemma_len_subset, set_int_range};

use std::collections::HashSet;

use crate::model::{Vector2D, key, key_of, lemma_key_injective};

verus! {

broadcast use vstd::std_specs::hash::group_hash_axioms;

/// Number of distinct point keys: an upper bound on the size of any set of points.
pub open spec fn key_space() -> int {
    0x1_0000_0000_0000_0000
}

/// A set of points, as the visited set of a flood fill.
pub struct PointSet {
    keys: HashSet<u64>,
    seen: Ghost<Set<int>>,
}

proof fn lemma_set_model()
    ensures
        vstd::std_specs::hash::obeys_key_model::<u64>(),
        vstd::std_specs::hash::builds_valid_hashers::<std::hash::RandomState>(),
{
}

impl PointSet {
    pub closed spec fn wf(&self) -> bool {
        &&& forall|k: u64| self.keys@.contains(k) <==> #[trigger] self.seen@.contains(k as int)
        &&& forall|i: int| #[trigger] self.seen@.contains(i) ==> 0 <= i < key_space()
        &&& self.seen@.finite()
    }

    /// Whether `p` was inserted.
    pub closed spec fn has(&self, p: Vector2D) -> bool {
        self.keys@.contains(key_of(p))
    }

    /// Number of points inserted.
    pub closed spec fn size(&self) -> nat {
        self.seen@.len()
    }

    pub fn new() -> (s: Self)
        ensures
            s.wf(),
            s.size() == 0,
            forall|p: Vector2D| !s.has(p),
    {
        proof {
            lemma_set_model();
        }
        PointSet { keys: HashSet::new(), seen: Ghost(Set::empty()) }
    }

    pub fn contains(&self, p: Vector2D) -> (r: bool)
        requires
            self.wf(),
        ensures
            r == self.has(p),
    {
        proof {
            lemma_set_model();
        }
        let k = key(p);
        self.keys.contains(&k)
    }

    /// Adds `p`; the size grows by one exactly when `p` is new.
    pub fn insert(&mut self, p: Vector2D)
        requires
            old(self).wf(),
        ensures
            final(self).wf(),
            forall|q: Vector2D| #[trigger] final(self).has(q) == (old(self).has(q) || q == p),
            !old(self).has(p) ==> final(self).size() == old(self).size() + 1,
            old(self).has(p) ==> final(self).size() == old(self).size(),
    {
        proof {
            lemma_set_model();
        }
        let k = key(p);
        let ghost was = self.keys@.contains(k);
        self.keys.insert(k);
        self.seen = Ghost(self.seen@.insert(k as int));
        proof {
            assert forall|q: Vector2D| #[trigger] self.has(q) == (old(self).has(q) || q == p) by {
                lemma_key_injective(q, p);
            }
            if !was {
                assert(!old(self).seen@.contains(k as int));
            } else {
                assert(self.seen@ =~= old(self).seen@);
            }
        }
    }

    /// No set holds more points than there are keys.
    pub proof fn lemma_size_bound(&self)
        requires
            self.wf(),
        ensures
            self.size() <= key_space(),
    {
        lemma_int_range(0, key_space());
        lemma_len_subset(self.seen@, set_int_range(0, key_space()));
    }
}

} // verus!
