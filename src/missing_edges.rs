use vstd::prelude::*;
use std::collections::HashMap;
use crate::global_dag::{lemma_pair_key_injective, pair_key};

verus! {

broadcast use vstd::std_specs::hash::group_hash_axioms;

/// The table of missed pairs: for each ordered pair `(u, v)` of a pair `{u, v}`
/// that is still missing, how often the direction `u -> v` was observed since.
pub struct MissingEdgeManager {
    counters: HashMap<u32, u64>,
    quorum_threshold: u64,
}

impl MissingEdgeManager {
    /// `{u, v}` is a known missing pair (looked up as `(u, v)`).
    pub closed spec fn is_missing(&self, u: u16, v: u16) -> bool {
        self.counters@.contains_key(pair_key(u, v))
    }

    /// The observation counter of the direction `u -> v`.
    pub closed spec fn count(&self, u: u16, v: u16) -> u64 {
        self.counters@[pair_key(u, v)]
    }

    /// The count at which a direction resolves its pair.
    pub closed spec fn quorum(&self) -> u64 {
        self.quorum_threshold
    }

    /// Membership is symmetric.
    pub open spec fn wf(&self) -> bool {
        forall|u: u16, v: u16| #[trigger] self.is_missing(u, v) ==> self.is_missing(v, u)
    }

    /// Every pair missing in `self` is still missing in `after`, with no counter lower.
    pub open spec fn grows_to(&self, after: &Self) -> bool {
        &&& after.quorum() == self.quorum()
        &&& forall|u: u16, v: u16| #[trigger] self.is_missing(u, v) ==> after.is_missing(u, v) && self.count(u, v) <= after.count(u, v)
    }

    pub fn new(quorum_threshold: u64) -> (r: MissingEdgeManager)
        ensures
            r.wf(),
            r.quorum() == quorum_threshold,
            forall|u: u16, v: u16| !r.is_missing(u, v),
    {
        MissingEdgeManager { counters: HashMap::new(), quorum_threshold }
    }

    /// Records `{v1, v2}` as missing, with both counters at zero if it was not
    /// known already; a known pair keeps its counters.
    pub fn add_missing_edge(&mut self, v1: u16, v2: u16)
        requires
            old(self).wf(),
        ensures
            final(self).wf(),
            old(self).grows_to(&*final(self)),
            final(self).is_missing(v1, v2),
            final(self).is_missing(v2, v1),
            old(self).is_missing(v1, v2) ==> final(self).count(v1, v2) == old(self).count(v1, v2)
                && final(self).count(v2, v1) == old(self).count(v2, v1),
            !old(self).is_missing(v1, v2) ==> final(self).count(v1, v2) == 0 && final(self).count(v2, v1) == 0,
            forall|u: u16, v: u16| !((u == v1 && v == v2) || (u == v2 && v == v1)) ==> (#[trigger] final(self).is_missing(u, v)
                == old(self).is_missing(u, v) && final(self).count(u, v) == old(self).count(u, v)),
    {
        let fwd: u32 = (v1 as u32) * 65536 + (v2 as u32);
        let rev: u32 = (v2 as u32) * 65536 + (v1 as u32);
        assert(fwd == pair_key(v1, v2) && rev == pair_key(v2, v1));
        let ghost pre = self.counters@;
        if !self.counters.contains_key(&fwd) {
            self.counters.insert(fwd, 0);
            self.counters.insert(rev, 0);
        }
        assert forall|u: u16, v: u16| #![trigger self.is_missing(u, v)] true implies
            (pair_key(u, v) == fwd ==> u == v1 && v == v2) && (pair_key(u, v) == rev ==> u == v2 && v == v1) by {
            lemma_pair_key_injective(u, v, v1, v2);
            lemma_pair_key_injective(u, v, v2, v1);
        }
        assert forall|u: u16, v: u16| #[trigger] self.is_missing(u, v) implies self.is_missing(v, u) by {
            lemma_pair_key_injective(u, v, v1, v2);
            lemma_pair_key_injective(u, v, v2, v1);
            lemma_pair_key_injective(v, u, v1, v2);
            lemma_pair_key_injective(v, u, v2, v1);
            if pre.contains_key(pair_key(u, v)) {
                assert(old(self).is_missing(u, v));
                assert(old(self).is_missing(v, u));
            }
        }
    }

    /// Whether `{from, to}` is a known missing pair.
    pub fn is_missing_edge(&self, from: u16, to: u16) -> (r: bool)
        ensures
            r == self.is_missing(from, to),
    {
        let key: u32 = (from as u32) * 65536 + (to as u32);
        assert(key == pair_key(from, to));
        self.counters.contains_key(&key)
    }

    /// The counter of `from -> to`, if the pair is missing.
    pub fn get_count(&self, from: u16, to: u16) -> (r: Option<u64>)
        ensures
            r == if self.is_missing(from, to) { Some(self.count(from, to)) } else { None::<u64> },
    {
        let key: u32 = (from as u32) * 65536 + (to as u32);
        assert(key == pair_key(from, to));
        match self.counters.get(&key) {
            Some(c) => Some(*c),
            None => None,
        }
    }

    /// Adds `new_count` observations of `from -> to` to a known missing pair and
    /// tells whether that direction has now reached the quorum; an unknown pair
    /// is left alone and reports `false`.
    pub fn add_updated_edge(&mut self, from: u16, to: u16, new_count: u64) -> (r: bool)
        requires
            old(self).wf(),
            old(self).is_missing(from, to) ==> old(self).count(from, to) + new_count <= u64::MAX,
        ensures
            final(self).wf(),
            old(self).grows_to(&*final(self)),
            forall|u: u16, v: u16| #[trigger] final(self).is_missing(u, v) == old(self).is_missing(u, v),
            forall|u: u16, v: u16| !(u == from && v == to) ==> #[trigger] final(self).count(u, v) == old(self).count(u, v),
            old(self).is_missing(from, to) ==> final(self).count(from, to) == old(self).count(from, to) + new_count,
            r == (old(self).is_missing(from, to) && old(self).count(from, to) + new_count >= old(self).quorum()),
    {
        let key: u32 = (from as u32) * 65536 + (to as u32);
        assert(key == pair_key(from, to));
        assert forall|u: u16, v: u16| #![trigger self.is_missing(u, v)] true implies
            (pair_key(u, v) == key ==> u == from && v == to) by {
            lemma_pair_key_injective(u, v, from, to);
        }
        assert forall|u: u16, v: u16| #[trigger] self.is_missing(u, v) implies self.is_missing(v, u) by {
            assert(old(self).is_missing(u, v));
        }
        let current: Option<u64> = match self.counters.get(&key) {
            Some(c) => Some(*c),
            None => None,
        };
        match current {
            Some(c) => {
                let count = c + new_count;
                self.counters.insert(key, count);
                assert forall|u: u16, v: u16| #[trigger] self.is_missing(u, v) implies self.is_missing(v, u) by {
                    lemma_pair_key_injective(u, v, from, to);
                    lemma_pair_key_injective(v, u, from, to);
                    assert(old(self).is_missing(u, v) ==> old(self).is_missing(v, u));
                }
                count >= self.quorum_threshold
            },
            None => false,
        }
    }

    /// The direction that has resolved `{u, v}`: `u -> v` if its counter reached
    /// the quorum, else `v -> u` if that one did, else none.
    pub fn resolved_direction(&self, u: u16, v: u16) -> (r: Option<(u16, u16)>)
        ensures
            r == resolution(*self, u, v),
    {
        match self.get_count(u, v) {
            Some(c) if c >= self.quorum_threshold => Some((u, v)),
            _ => match self.get_count(v, u) {
                Some(c) if c >= self.quorum_threshold => Some((v, u)),
                _ => None,
            },
        }
    }
}

/// The direction that has resolved `{u, v}` in `m`, if any.
pub open spec fn resolution(m: MissingEdgeManager, u: u16, v: u16) -> Option<(u16, u16)> {
    if m.is_missing(u, v) && m.count(u, v) >= m.quorum() {
        Some((u, v))
    } else if m.is_missing(v, u) && m.count(v, u) >= m.quorum() {
        Some((v, u))
    } else {
        None
    }
}

/// Membership in the table is symmetric in every reachable state.
pub proof fn missing_membership_is_symmetric(m: MissingEdgeManager, u: u16, v: u16)
    requires
        m.wf(),
    ensures
        m.is_missing(u, v) == m.is_missing(v, u),
{
}

} // verus!
