use vstd::prelude::*;
use crate::dag::Dag;
use crate::global_dag::{GlobalDependencyGraph, MissedEdge, all_wf, lemma_push_contains};
use crate::execution_queue::is_pair;
use crate::missing_edges::MissingEdgeManager;

verus! {

/// A batch message on its way to the global-order maker.
pub struct GlobalOrderMakerMessage {
    /// A serialized batch message.
    pub batch: Vec<u8>,
    /// Whether the batch is our own or a peer's.
    pub own_digest: bool,
}

/// `after` is `before` with one more observation of every edge of `dag` whose
/// pair is missing (a counter already at its maximum stays there).
pub open spec fn observed(before: MissingEdgeManager, after: MissingEdgeManager, dag: Dag) -> bool {
    &&& after.wf()
    &&& after.quorum() == before.quorum()
    &&& forall|u: u16, v: u16| #[trigger] after.is_missing(u, v) == before.is_missing(u, v)
    &&& forall|u: u16, v: u16| #[trigger] after.count(u, v) == if before.is_missing(u, v) && dag.has_edge(u, v)
        && before.count(u, v) < u64::MAX {
        (before.count(u, v) + 1) as u64
    } else {
        before.count(u, v)
    }
}

/// One of the first `k` entries of `missed` is the pair `{u, v}`.
pub open spec fn lists_pair(missed: Seq<MissedEdge>, k: int, u: u16, v: u16) -> bool {
    exists|i: int| #![trigger missed[i]] 0 <= i < k && is_pair((missed[i].u, missed[i].v), u, v)
}

/// The counter of `u -> v` after this round's `add` observations are recorded:
/// its count before (zero for a pair new to the table) plus `add`, unless that
/// would overflow.
pub open spec fn seeded(before: MissingEdgeManager, u: u16, v: u16, add: u64) -> u64 {
    let base: u64 = if before.is_missing(u, v) { before.count(u, v) } else { 0 };
    if base + add <= u64::MAX {
        (base + add) as u64
    } else {
        base
    }
}

/// The entries of `missed` name pairwise different pairs, each of two different ids.
pub open spec fn distinct_pairs(missed: Seq<MissedEdge>) -> bool {
    &&& forall|i: int| 0 <= i < missed.len() ==> (#[trigger] missed[i]).u != missed[i].v
    &&& forall|i: int, j: int|
        0 <= i < missed.len() && 0 <= j < missed.len() && i != j ==> !is_pair(
            ((#[trigger] missed[i]).u, missed[i].v),
            (#[trigger] missed[j]).u,
            missed[j].v,
        )
}

/// `after` is `before` with every pair of `missed` known as missing and its two
/// counters raised by the counts of this round; every other counter is kept.
pub open spec fn recorded(before: MissingEdgeManager, after: MissingEdgeManager, missed: Seq<MissedEdge>) -> bool {
    &&& after.wf()
    &&& before.grows_to(&after)
    &&& forall|u: u16, v: u16| #[trigger] after.is_missing(u, v) <==> (before.is_missing(u, v) || lists_pair(missed, missed.len() as int, u, v))
    &&& forall|i: int| #![trigger missed[i]] 0 <= i < missed.len() ==> after.count(missed[i].u, missed[i].v) == seeded(
        before,
        missed[i].u,
        missed[i].v,
        missed[i].forward,
    ) && after.count(missed[i].v, missed[i].u) == seeded(before, missed[i].v, missed[i].u, missed[i].backward)
    &&& forall|u: u16, v: u16| !lists_pair(missed, missed.len() as int, u, v) ==> #[trigger] after.count(u, v) == before.count(u, v)
}

/// Adds one observation of each edge of `dag` to the pairs that are missing.
pub fn update_missed_edges(manager: &mut MissingEdgeManager, dag: &Dag)
    requires
        old(manager).wf(),
        dag.wf(),
    ensures
        observed(*old(manager), *final(manager), *dag),
{
    let mut k: usize = 0;
    while k < dag.edges.len()
        invariant
            0 <= k <= dag.edges@.len(),
            dag.wf(),
            manager.wf(),
            manager.quorum() == old(manager).quorum(),
            forall|u: u16, v: u16| #[trigger] manager.is_missing(u, v) == old(manager).is_missing(u, v),
            forall|u: u16, v: u16| #[trigger] manager.count(u, v) == if old(manager).is_missing(u, v)
                && dag.edges@.take(k as int).contains((u, v)) && old(manager).count(u, v) < u64::MAX {
                (old(manager).count(u, v) + 1) as u64
            } else {
                old(manager).count(u, v)
            },
        decreases dag.edges@.len() - k,
    {
        let (from, to) = dag.edges[k];
        assert(dag.edges@.take(k as int + 1) =~= dag.edges@.take(k as int).push((from, to)));
        assert(!dag.edges@.take(k as int).contains((from, to))) by {
            if dag.edges@.take(k as int).contains((from, to)) {
                let t = choose|t: int| 0 <= t < k && dag.edges@.take(k as int)[t] == (from, to);
                assert(dag.edges@[t] == dag.edges@[k as int]);
            }
        }
        let ghost mid = *manager;
        match manager.get_count(from, to) {
            Some(c) => {
                if c < u64::MAX {
                    manager.add_updated_edge(from, to, 1);
                }
            },
            None => {},
        }
        assert forall|u: u16, v: u16| #[trigger] manager.count(u, v) == if old(manager).is_missing(u, v)
            && dag.edges@.take(k as int + 1).contains((u, v)) && old(manager).count(u, v) < u64::MAX {
            (old(manager).count(u, v) + 1) as u64
        } else {
            old(manager).count(u, v)
        } by {
            lemma_push_contains(dag.edges@.take(k as int), (from, to), (u, v));
            assert(mid.count(u, v) == if old(manager).is_missing(u, v)
                && dag.edges@.take(k as int).contains((u, v)) && old(manager).count(u, v) < u64::MAX {
                (old(manager).count(u, v) + 1) as u64
            } else {
                old(manager).count(u, v)
            });
        }
        k += 1;
    }
    assert(dag.edges@.take(k as int) =~= dag.edges@);
}

/// Records every missed pair of a new global DAG in the table, seeding a pair
/// new to the table with the counts of both directions in this round.
pub fn record_missed_edges(manager: &mut MissingEdgeManager, missed: &Vec<MissedEdge>)
    requires
        old(manager).wf(),
        distinct_pairs(missed@),
    ensures
        recorded(*old(manager), *final(manager), missed@),
{
    let mut k: usize = 0;
    while k < missed.len()
        invariant
            0 <= k <= missed@.len(),
            manager.wf(),
            old(manager).grows_to(&*manager),
            forall|u: u16, v: u16| #[trigger] manager.is_missing(u, v) <==> (old(manager).is_missing(u, v) || lists_pair(missed@, k as int, u, v)),
            distinct_pairs(missed@),
            forall|i: int| #![trigger missed@[i]] 0 <= i < k ==> manager.count(missed@[i].u, missed@[i].v) == seeded(
                *old(manager),
                missed@[i].u,
                missed@[i].v,
                missed@[i].forward,
            ) && manager.count(missed@[i].v, missed@[i].u) == seeded(*old(manager), missed@[i].v, missed@[i].u, missed@[i].backward),
            forall|u: u16, v: u16| !lists_pair(missed@, k as int, u, v) ==> #[trigger] manager.count(u, v) == old(manager).count(u, v),
        decreases missed@.len() - k,
    {
        let m = missed[k];
        let ghost mid = *manager;
        manager.add_missing_edge(m.u, m.v);
        let ghost mid2 = *manager;
        match manager.get_count(m.u, m.v) {
            Some(c) => {
                if c <= u64::MAX - m.forward {
                    manager.add_updated_edge(m.u, m.v, m.forward);
                }
            },
            None => {},
        }
        let ghost mid3 = *manager;
        match manager.get_count(m.v, m.u) {
            Some(c) => {
                if c <= u64::MAX - m.backward {
                    manager.add_updated_edge(m.v, m.u, m.backward);
                }
            },
            None => {},
        }
        assert forall|u: u16, v: u16| #[trigger] manager.is_missing(u, v) <==> (old(manager).is_missing(u, v) || lists_pair(missed@, k + 1, u, v)) by {
            assert(mid3.is_missing(u, v) == mid2.is_missing(u, v));
            if is_pair((m.u, m.v), u, v) {
                assert(missed@[k as int] == m);
            }
            if lists_pair(missed@, k + 1, u, v) {
                let i = choose|i: int| #![trigger missed@[i]] 0 <= i < k + 1 && is_pair((missed@[i].u, missed@[i].v), u, v);
                if i < k {
                    assert(lists_pair(missed@, k as int, u, v));
                    assert(mid.is_missing(u, v));
                }
            }
            if lists_pair(missed@, k as int, u, v) {
                let i = choose|i: int| #![trigger missed@[i]] 0 <= i < k && is_pair((missed@[i].u, missed@[i].v), u, v);
                assert(lists_pair(missed@, k + 1, u, v));
            }
        }
        assert(old(manager).grows_to(&*manager)) by {
            assert forall|u: u16, v: u16| #[trigger] old(manager).is_missing(u, v) implies manager.is_missing(u, v)
                && old(manager).count(u, v) <= manager.count(u, v) by {
                assert(mid.is_missing(u, v));
                assert(mid2.is_missing(u, v));
                assert(mid3.is_missing(u, v));
            }
        }
        proof {
            assert(missed@[k as int] == m);
            assert(m.u != m.v);
            // The pair of entry k was untouched before this step.
            assert(!lists_pair(missed@, k as int, m.u, m.v)) by {
                if lists_pair(missed@, k as int, m.u, m.v) {
                    let i = choose|i: int| #![trigger missed@[i]] 0 <= i < k && is_pair((missed@[i].u, missed@[i].v), m.u, m.v);
                    assert(!is_pair((missed@[i].u, missed@[i].v), missed@[k as int].u, missed@[k as int].v));
                }
            }
            assert(!lists_pair(missed@, k as int, m.v, m.u)) by {
                if lists_pair(missed@, k as int, m.v, m.u) {
                    let i = choose|i: int| #![trigger missed@[i]] 0 <= i < k && is_pair((missed@[i].u, missed@[i].v), m.v, m.u);
                    assert(!is_pair((missed@[i].u, missed@[i].v), missed@[k as int].u, missed@[k as int].v));
                }
            }
            assert(mid.count(m.u, m.v) == old(manager).count(m.u, m.v));
            assert(mid.count(m.v, m.u) == old(manager).count(m.v, m.u));
            assert(mid.is_missing(m.u, m.v) == old(manager).is_missing(m.u, m.v));
            assert(mid.is_missing(m.v, m.u) == old(manager).is_missing(m.v, m.u));
            assert(manager.count(m.u, m.v) == seeded(*old(manager), m.u, m.v, m.forward));
            assert(manager.count(m.v, m.u) == seeded(*old(manager), m.v, m.u, m.backward));
            assert forall|i: int| #![trigger missed@[i]] 0 <= i < k + 1 implies manager.count(missed@[i].u, missed@[i].v) == seeded(
                *old(manager),
                missed@[i].u,
                missed@[i].v,
                missed@[i].forward,
            ) && manager.count(missed@[i].v, missed@[i].u) == seeded(*old(manager), missed@[i].v, missed@[i].u, missed@[i].backward) by {
                if i < k {
                    let e = missed@[i];
                    assert(!is_pair((e.u, e.v), m.u, m.v));
                    assert(mid2.is_missing(e.u, e.v) == mid.is_missing(e.u, e.v));
                    assert(mid2.is_missing(e.v, e.u) == mid.is_missing(e.v, e.u));
                    assert(mid3.count(e.u, e.v) == mid.count(e.u, e.v));
                    assert(mid3.count(e.v, e.u) == mid.count(e.v, e.u));
                }
            }
            assert forall|u: u16, v: u16| !lists_pair(missed@, k + 1, u, v) implies #[trigger] manager.count(u, v) == old(manager).count(u, v) by {
                assert(!lists_pair(missed@, k as int, u, v)) by {
                    if lists_pair(missed@, k as int, u, v) {
                        let i = choose|i: int| #![trigger missed@[i]] 0 <= i < k && is_pair((missed@[i].u, missed@[i].v), u, v);
                        assert(lists_pair(missed@, k + 1, u, v));
                    }
                }
                assert(!is_pair((m.u, m.v), u, v)) by {
                    if is_pair((m.u, m.v), u, v) {
                        assert(lists_pair(missed@, k + 1, u, v));
                    }
                }
                assert(mid2.is_missing(u, v) == mid.is_missing(u, v));
            }
        }
        k += 1;
    }
}

/// Collects the local DAGs of the current round and, once a quorum of them is
/// in, votes the global DAG of the round.
pub struct GlobalOrderMaker {
    pub current_round: u64,
    pub local_order_dags: Vec<Dag>,
    /// The peer each local DAG of the round came from.
    pub senders: Vec<u64>,
    pub quorum_threshold: u64,
    pub fixed_tx_threshold: u64,
    pub pending_tx_threshold: u64,
}

impl GlobalOrderMaker {
    pub open spec fn wf(&self) -> bool {
        &&& all_wf(self.local_order_dags@)
        &&& self.senders@.len() == self.local_order_dags@.len()
        &&& 1 <= self.pending_tx_threshold <= self.fixed_tx_threshold
    }

    /// A maker for round 1, with no local DAG yet.
    pub fn new(quorum_threshold: u64, fixed_tx_threshold: u64, pending_tx_threshold: u64) -> (r: GlobalOrderMaker)
        requires
            1 <= pending_tx_threshold <= fixed_tx_threshold,
        ensures
            r.wf(),
            r.current_round == 1,
            r.local_order_dags@.len() == 0,
            r.quorum_threshold == quorum_threshold,
            r.fixed_tx_threshold == fixed_tx_threshold,
            r.pending_tx_threshold == pending_tx_threshold,
    {
        GlobalOrderMaker {
            current_round: 1,
            local_order_dags: Vec::new(),
            senders: Vec::new(),
            quorum_threshold,
            fixed_tx_threshold,
            pending_tx_threshold,
        }
    }

    /// Moves to a new round: the local DAGs collected so far are dropped.
    pub fn advance_round(&mut self, round: u64)
        requires
            old(self).wf(),
        ensures
            final(self).wf(),
            final(self).current_round == round,
            final(self).local_order_dags@.len() == 0,
            final(self).quorum_threshold == old(self).quorum_threshold,
            final(self).fixed_tx_threshold == old(self).fixed_tx_threshold,
            final(self).pending_tx_threshold == old(self).pending_tx_threshold,
    {
        self.current_round = round;
        self.local_order_dags = Vec::new();
        self.senders = Vec::new();
    }

    /// Takes in one local DAG from peer `sender`, tagged with `batch_round`. It is
    /// dropped when the round is not the current one, a quorum is already in, or
    /// the peer already sent a DAG this round (the first one counts). Otherwise its
    /// edges are observed for the missing pairs, it joins the round's DAGs, and
    /// when that makes a quorum the global DAG is voted, its missed pairs are
    /// recorded, and it is returned.
    pub fn add_local_dag(&mut self, dag: Dag, batch_round: u64, sender: u64, manager: &mut MissingEdgeManager) -> (r: Option<GlobalDependencyGraph>)
        requires
            old(self).wf(),
            old(manager).wf(),
            dag.wf(),
        ensures
            final(self).wf(),
            final(self).current_round == old(self).current_round,
            final(self).quorum_threshold == old(self).quorum_threshold,
            final(self).fixed_tx_threshold == old(self).fixed_tx_threshold,
            final(self).pending_tx_threshold == old(self).pending_tx_threshold,
            (old(self).local_order_dags@.len() >= old(self).quorum_threshold || batch_round != old(self).current_round
                || old(self).senders@.contains(sender)) ==> {
                &&& r is None
                &&& final(self).local_order_dags@ == old(self).local_order_dags@
                &&& final(self).senders@ == old(self).senders@
                &&& *final(manager) == *old(manager)
            },
            (old(self).local_order_dags@.len() < old(self).quorum_threshold && batch_round == old(self).current_round
                && !old(self).senders@.contains(sender)) ==> {
                &&& final(self).local_order_dags@ == old(self).local_order_dags@.push(dag)
                &&& final(self).senders@ == old(self).senders@.push(sender)
                &&& exists|mid: MissingEdgeManager| #[trigger] observed(*old(manager), mid, dag) && if final(self).local_order_dags@.len() >= old(self).quorum_threshold {
                    &&& r matches Some(g)
                    &&& g.voted_from(final(self).local_order_dags@, old(self).fixed_tx_threshold, old(self).pending_tx_threshold)
                    &&& recorded(mid, *final(manager), g.missed_edges@)
                } else {
                    &&& r is None
                    &&& *final(manager) == mid
                }
            },
    {
        if (self.local_order_dags.len() as u64) >= self.quorum_threshold || batch_round != self.current_round {
            return None;
        }
        let mut k: usize = 0;
        while k < self.senders.len()
            invariant
                0 <= k <= self.senders@.len(),
                *self == *old(self),
                self.wf(),
                self.local_order_dags@ == old(self).local_order_dags@,
                self.senders@ == old(self).senders@,
                forall|t: int| 0 <= t < k ==> self.senders@[t] != sender,
            decreases self.senders@.len() - k,
        {
            if self.senders[k] == sender {
                assert(self.senders@.contains(sender)) by {
                    assert(self.senders@[k as int] == sender);
                }
                return None;
            }
            k += 1;
        }
        self.senders.push(sender);
        update_missed_edges(manager, &dag);
        let ghost mid = *manager;
        self.local_order_dags.push(dag);
        assert(all_wf(self.local_order_dags@)) by {
            assert forall|i: int| 0 <= i < self.local_order_dags@.len() implies #[trigger] self.local_order_dags@[i].wf() by {
                if i < old(self).local_order_dags@.len() {
                    assert(self.local_order_dags@[i] == old(self).local_order_dags@[i]);
                }
            }
        }
        if (self.local_order_dags.len() as u64) >= self.quorum_threshold {
            let g = GlobalDependencyGraph::new(&self.local_order_dags, self.fixed_tx_threshold, self.pending_tx_threshold);
            proof {
                assert(distinct_pairs(g.missed_edges@)) by {
                    let ps = crate::global_dag::pairs_of(g.missed_edges@);
                    assert forall|i: int| 0 <= i < g.missed_edges@.len() implies (#[trigger] g.missed_edges@[i]).u != g.missed_edges@[i].v by {
                        assert(ps[i] == (g.missed_edges@[i].u, g.missed_edges@[i].v));
                        assert(ps.contains(ps[i]));
                    }
                    assert forall|i: int, j: int|
                        0 <= i < g.missed_edges@.len() && 0 <= j < g.missed_edges@.len() && i != j implies !is_pair(
                            ((#[trigger] g.missed_edges@[i]).u, g.missed_edges@[i].v),
                            (#[trigger] g.missed_edges@[j]).u,
                            g.missed_edges@[j].v,
                        ) by {
                        assert(ps[i] == (g.missed_edges@[i].u, g.missed_edges@[i].v));
                        assert(ps[j] == (g.missed_edges@[j].u, g.missed_edges@[j].v));
                        assert(ps.contains(ps[i]) && ps.contains(ps[j]));
                    }
                }
            }
            record_missed_edges(manager, &g.missed_edges);
            assert(observed(*old(manager), mid, dag));
            Some(g)
        } else {
            assert(observed(*old(manager), mid, dag));
            None
        }
    }
}

} // verus!
