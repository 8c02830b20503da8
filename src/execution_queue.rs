use vstd::prelude::*;
use std::collections::VecDeque;
use crate::dag::Dag;
use crate::global_dag::lemma_push_contains;
use crate::missing_edges::{MissingEdgeManager, resolution};
use crate::prune::contains_edge;

verus! {

/// One finalized global order waiting for execution.
pub struct QueueElement {
    /// The digest under which the global order is stored.
    pub global_order_digest: Vec<u8>,
    /// The pairs still unresolved.
    pub missed_pairs: Vec<(u16, u16)>,
    /// The winning directions of the pairs resolved since.
    pub updated_edges: Vec<(u16, u16)>,
}

/// The pairs of `pairs` that `m` has not resolved, in order.
pub open spec fn unresolved_list(m: MissingEdgeManager, pairs: Seq<(u16, u16)>) -> Seq<(u16, u16)>
    decreases pairs.len(),
{
    if pairs.len() == 0 {
        Seq::empty()
    } else {
        let rest = unresolved_list(m, pairs.drop_last());
        let p = pairs.last();
        if resolution(m, p.0, p.1) is None {
            rest.push(p)
        } else {
            rest
        }
    }
}

/// The winning directions of the pairs of `pairs` that `m` has resolved, in order.
pub open spec fn resolved_list(m: MissingEdgeManager, pairs: Seq<(u16, u16)>) -> Seq<(u16, u16)>
    decreases pairs.len(),
{
    if pairs.len() == 0 {
        Seq::empty()
    } else {
        let rest = resolved_list(m, pairs.drop_last());
        let p = pairs.last();
        match resolution(m, p.0, p.1) {
            Some(d) => rest.push(d),
            None => rest,
        }
    }
}

/// `after` is `before` with the pairs that `m` resolved moved to its updated edges.
pub open spec fn refreshed(m: MissingEdgeManager, before: QueueElement, after: QueueElement) -> bool {
    &&& after.global_order_digest@ == before.global_order_digest@
    &&& after.missed_pairs@ == unresolved_list(m, before.missed_pairs@)
    &&& after.updated_edges@ == before.updated_edges@ + resolved_list(m, before.missed_pairs@)
}

/// `p` is the unordered pair `{u, v}`.
pub open spec fn is_pair(p: (u16, u16), u: u16, v: u16) -> bool {
    (p.0 == u && p.1 == v) || (p.0 == v && p.1 == u)
}

/// `after` is `before` with the pair `{u, v}` resolved in direction `u -> v`.
pub open spec fn resolved_pair(before: QueueElement, after: QueueElement, u: u16, v: u16) -> bool {
    &&& after.global_order_digest@ == before.global_order_digest@
    &&& forall|p: (u16, u16)| #[trigger] after.missed_pairs@.contains(p) <==> before.missed_pairs@.contains(p) && !is_pair(p, u, v)
    &&& after.updated_edges@ == if exists|p: (u16, u16)| #[trigger] before.missed_pairs@.contains(p) && is_pair(p, u, v) {
        before.updated_edges@.push((u, v))
    } else {
        before.updated_edges@
    }
}

/// Moves the pairs of `e` that `m` has resolved to its updated edges.
fn refresh_element(e: QueueElement, m: &MissingEdgeManager) -> (r: QueueElement)
    ensures
        refreshed(*m, e, r),
{
    let QueueElement { global_order_digest, missed_pairs, mut updated_edges } = e;
    let ghost old_updated = updated_edges@;
    let mut still: Vec<(u16, u16)> = Vec::new();
    let mut k: usize = 0;
    while k < missed_pairs.len()
        invariant
            0 <= k <= missed_pairs@.len(),
            still@ == unresolved_list(*m, missed_pairs@.take(k as int)),
            updated_edges@ == old_updated + resolved_list(*m, missed_pairs@.take(k as int)),
        decreases missed_pairs@.len() - k,
    {
        let p = missed_pairs[k];
        let ghost pre = missed_pairs@.take(k as int + 1);
        assert(pre.drop_last() =~= missed_pairs@.take(k as int));
        assert(pre.last() == p);
        match m.resolved_direction(p.0, p.1) {
            Some(d) => {
                updated_edges.push(d);
                assert(updated_edges@ =~= old_updated + resolved_list(*m, pre));
            },
            None => {
                still.push(p);
            },
        }
        k += 1;
    }
    assert(missed_pairs@.take(k as int) =~= missed_pairs@);
    QueueElement { global_order_digest, missed_pairs: still, updated_edges }
}

/// Resolves the pair `{u, v}` of `e` in the direction `u -> v`.
fn resolve_in_element(e: QueueElement, u: u16, v: u16) -> (r: QueueElement)
    ensures
        resolved_pair(e, r, u, v),
{
    let QueueElement { global_order_digest, missed_pairs, mut updated_edges } = e;
    let mut still: Vec<(u16, u16)> = Vec::new();
    let mut found = false;
    let mut k: usize = 0;
    while k < missed_pairs.len()
        invariant
            0 <= k <= missed_pairs@.len(),
            forall|p: (u16, u16)| #[trigger] still@.contains(p) <==> missed_pairs@.take(k as int).contains(p) && !is_pair(p, u, v),
            found == exists|p: (u16, u16)| #[trigger] missed_pairs@.take(k as int).contains(p) && is_pair(p, u, v),
        decreases missed_pairs@.len() - k,
    {
        let p = missed_pairs[k];
        assert(missed_pairs@.take(k as int + 1) =~= missed_pairs@.take(k as int).push(p));
        let ghost old_still = still@;
        let hit = (p.0 == u && p.1 == v) || (p.0 == v && p.1 == u);
        if hit {
            found = true;
        } else {
            still.push(p);
        }
        assert forall|q: (u16, u16)| #[trigger] still@.contains(q) <==> missed_pairs@.take(k as int + 1).contains(q) && !is_pair(q, u, v) by {
            lemma_push_contains(missed_pairs@.take(k as int), p, q);
            lemma_push_contains(old_still, p, q);
        }
        assert(found == exists|q: (u16, u16)| #[trigger] missed_pairs@.take(k as int + 1).contains(q) && is_pair(q, u, v)) by {
            lemma_push_contains(missed_pairs@.take(k as int), p, p);
            assert(missed_pairs@.take(k as int + 1).contains(p));
            assert forall|q: (u16, u16)| #[trigger] missed_pairs@.take(k as int + 1).contains(q) implies missed_pairs@.take(k as int).contains(q) || q == p by {
                lemma_push_contains(missed_pairs@.take(k as int), p, q);
            }
            assert forall|q: (u16, u16)| #[trigger] missed_pairs@.take(k as int).contains(q) implies missed_pairs@.take(k as int + 1).contains(q) by {
                lemma_push_contains(missed_pairs@.take(k as int), p, q);
            }
        }
        k += 1;
    }
    assert(missed_pairs@.take(k as int) =~= missed_pairs@);
    if found {
        updated_edges.push((u, v));
    }
    QueueElement { global_order_digest, missed_pairs: still, updated_edges }
}

/// The FIFO of global orders waiting for their missed pairs to resolve.
pub struct ExecutionQueue {
    pub queue: VecDeque<QueueElement>,
}

impl ExecutionQueue {
    pub fn new() -> (r: ExecutionQueue)
        ensures
            r.queue@.len() == 0,
    {
        ExecutionQueue { queue: VecDeque::new() }
    }

    /// Appends a global order with its missed pairs as the unresolved set.
    pub fn add_to_queue(&mut self, digest: Vec<u8>, missed_pairs: Vec<(u16, u16)>)
        ensures
            final(self).queue@.len() == old(self).queue@.len() + 1,
            final(self).queue@.drop_last() == old(self).queue@,
            final(self).queue@.last().global_order_digest@ == digest@,
            final(self).queue@.last().missed_pairs@ == missed_pairs@,
            final(self).queue@.last().updated_edges@.len() == 0,
    {
        self.queue.push_back(QueueElement { global_order_digest: digest, missed_pairs, updated_edges: Vec::new() });
        assert(self.queue@.drop_last() =~= old(self).queue@);
    }

    /// Walks the queue from its head and, in every entry that still waits on
    /// `{u, v}`, removes that pair and records `u -> v` as an updated edge.
    pub fn on_edge_resolved(&mut self, u: u16, v: u16)
        ensures
            final(self).queue@.len() == old(self).queue@.len(),
            forall|i: int| 0 <= i < old(self).queue@.len() ==> resolved_pair(
                #[trigger] old(self).queue@[i],
                final(self).queue@[i],
                u,
                v,
            ),
    {
        let n = self.queue.len();
        let mut k: usize = 0;
        while k < n
            invariant
                0 <= k <= n,
                n == old(self).queue@.len(),
                self.queue@.len() == n,
                forall|i: int| 0 <= i < n - k ==> self.queue@[i] == old(self).queue@[i + k],
                forall|i: int| 0 <= i < k ==> resolved_pair(
                    #[trigger] old(self).queue@[i],
                    self.queue@[n - k + i],
                    u,
                    v,
                ),
            decreases n - k,
        {
            let e = self.queue.pop_front().unwrap();
            let r = resolve_in_element(e, u, v);
            self.queue.push_back(r);
            k += 1;
        }
    }

    /// Moves, in every entry, the pairs that `manager` has resolved to the
    /// entry's updated edges.
    pub fn update_missed_pairs(&mut self, manager: &MissingEdgeManager)
        ensures
            final(self).queue@.len() == old(self).queue@.len(),
            forall|i: int| 0 <= i < old(self).queue@.len() ==> refreshed(
                *manager,
                #[trigger] old(self).queue@[i],
                final(self).queue@[i],
            ),
    {
        let n = self.queue.len();
        let mut k: usize = 0;
        while k < n
            invariant
                0 <= k <= n,
                n == old(self).queue@.len(),
                self.queue@.len() == n,
                forall|i: int| 0 <= i < n - k ==> self.queue@[i] == old(self).queue@[i + k],
                forall|i: int| 0 <= i < k ==> refreshed(
                    *manager,
                    #[trigger] old(self).queue@[i],
                    self.queue@[n - k + i],
                ),
            decreases n - k,
        {
            let e = self.queue.pop_front().unwrap();
            let r = refresh_element(e, manager);
            self.queue.push_back(r);
            k += 1;
        }
    }

    /// Pops the longest prefix of entries with nothing left unresolved, in order.
    pub fn drain_ready(&mut self) -> (r: Vec<QueueElement>)
        ensures
            r@ + final(self).queue@ == old(self).queue@,
            forall|i: int| 0 <= i < r@.len() ==> (#[trigger] r@[i]).missed_pairs@.len() == 0,
            final(self).queue@.len() > 0 ==> final(self).queue@[0].missed_pairs@.len() > 0,
    {
        let mut r: Vec<QueueElement> = Vec::new();
        loop
            invariant
                r@ + self.queue@ == old(self).queue@,
                forall|i: int| 0 <= i < r@.len() ==> (#[trigger] r@[i]).missed_pairs@.len() == 0,
            ensures
                r@ + self.queue@ == old(self).queue@,
                forall|i: int| 0 <= i < r@.len() ==> (#[trigger] r@[i]).missed_pairs@.len() == 0,
                self.queue@.len() > 0 ==> self.queue@[0].missed_pairs@.len() > 0,
            decreases self.queue@.len(),
        {
            if self.queue.len() == 0 {
                break;
            }
            if self.queue[0].missed_pairs.len() > 0 {
                break;
            }
            let ghost pre_r = r@;
            let ghost pre_q = self.queue@;
            let e = self.queue.pop_front().unwrap();
            r.push(e);
            assert(r@ + self.queue@ =~= pre_r + pre_q);
        }
        r
    }

    /// Takes in a new global order, moves the pairs the manager has resolved in
    /// every entry, and pops the entries that are ready, in order.
    pub fn execute(&mut self, digest: Vec<u8>, missed_pairs: Vec<(u16, u16)>, manager: &MissingEdgeManager) -> (r: Vec<QueueElement>)
        ensures
            r@.len() + final(self).queue@.len() == old(self).queue@.len() + 1,
            forall|i: int| 0 <= i < old(self).queue@.len() ==> refreshed(
                *manager,
                #[trigger] old(self).queue@[i],
                (r@ + final(self).queue@)[i],
            ),
            ({
                let last = (r@ + final(self).queue@)[old(self).queue@.len() as int];
                &&& last.global_order_digest@ == digest@
                &&& last.missed_pairs@ == unresolved_list(*manager, missed_pairs@)
                &&& last.updated_edges@ == resolved_list(*manager, missed_pairs@)
            }),
            forall|i: int| 0 <= i < r@.len() ==> (#[trigger] r@[i]).missed_pairs@.len() == 0,
            final(self).queue@.len() > 0 ==> final(self).queue@[0].missed_pairs@.len() > 0,
    {
        self.add_to_queue(digest, missed_pairs);
        let ghost added = self.queue@;
        self.update_missed_pairs(manager);
        let ghost refreshed_q = self.queue@;
        let r = self.drain_ready();
        proof {
            assert(r@ + self.queue@ == refreshed_q);
            let n = old(self).queue@.len() as int;
            assert(added[n].updated_edges@ =~= Seq::<(u16, u16)>::empty());
            assert(refreshed(*manager, added[n], refreshed_q[n]));
            assert(refreshed_q[n].updated_edges@ =~= resolved_list(*manager, missed_pairs@));
            assert forall|i: int| 0 <= i < n implies refreshed(
                *manager,
                #[trigger] old(self).queue@[i],
                (r@ + self.queue@)[i],
            ) by {
                assert(added[i] == old(self).queue@[i]);
                assert(refreshed(*manager, added[i], refreshed_q[i]));
            }
        }
        r
    }
}

/// The graph `dag` with the directed edges of `edges` added, where both ends are
/// nodes of `dag` and the edge is not there yet.
pub fn patch_dag(dag: &Dag, edges: &Vec<(u16, u16)>) -> (r: Dag)
    requires
        dag.wf(),
    ensures
        r.wf(),
        r.nodes@ == dag.nodes@,
        forall|u: u16, v: u16| #[trigger] r.has_edge(u, v) <==> (dag.has_edge(u, v) || (edges@.contains((u, v))
            && dag.has_node(u) && dag.has_node(v))),
{
    let mut out_edges: Vec<(u16, u16)> = Vec::new();
    let mut k: usize = 0;
    while k < dag.edges.len()
        invariant
            0 <= k <= dag.edges@.len(),
            out_edges@ == dag.edges@.take(k as int),
        decreases dag.edges@.len() - k,
    {
        out_edges.push(dag.edges[k]);
        assert(out_edges@ =~= dag.edges@.take(k as int + 1));
        k += 1;
    }
    assert(dag.edges@.take(k as int) =~= dag.edges@);
    let mut nodes: Vec<u16> = Vec::new();
    let mut k: usize = 0;
    while k < dag.nodes.len()
        invariant
            0 <= k <= dag.nodes@.len(),
            nodes@ == dag.nodes@.take(k as int),
        decreases dag.nodes@.len() - k,
    {
        nodes.push(dag.nodes[k]);
        assert(nodes@ =~= dag.nodes@.take(k as int + 1));
        k += 1;
    }
    assert(dag.nodes@.take(k as int) =~= dag.nodes@);
    let mut r = Dag { nodes, edges: out_edges };
    let mut k: usize = 0;
    while k < edges.len()
        invariant
            0 <= k <= edges@.len(),
            dag.wf(),
            r.wf(),
            r.nodes@ == dag.nodes@,
            forall|u: u16, v: u16| #[trigger] r.has_edge(u, v) <==> (dag.has_edge(u, v) || (edges@.take(k as int).contains((u, v))
                && dag.has_node(u) && dag.has_node(v))),
        decreases edges@.len() - k,
    {
        let (u, v) = edges[k];
        assert(edges@.take(k as int + 1) =~= edges@.take(k as int).push((u, v)));
        let ghost old_edges = r.edges@;
        let ghost old_r = r;
        let present = contains_edge(&r, u, v);
        let ends = crate::dag::contains_node(&r, u) && crate::dag::contains_node(&r, v);
        assert(ends == (dag.has_node(u) && dag.has_node(v)));
        assert(present == r.has_edge(u, v));
        if !present && ends {
            r.edges.push((u, v));
            assert forall|a: int, b: int| 0 <= a < b < r.edges@.len() implies r.edges@[a] != r.edges@[b] by {
                if b == old_edges.len() {
                    assert(old_edges.contains(old_edges[a]));
                }
            }
        }
        assert forall|a: u16, b: u16| #[trigger] r.has_edge(a, b) <==> (dag.has_edge(a, b) || (edges@.take(k as int + 1).contains((a, b))
            && dag.has_node(a) && dag.has_node(b))) by {
            lemma_push_contains(edges@.take(k as int), (u, v), (a, b));
            lemma_push_contains(old_edges, (u, v), (a, b));
            if !(!present && ends) {
                assert(r.edges@ == old_edges);
            }
            assert(old_r.has_edge(a, b) <==> (dag.has_edge(a, b) || (edges@.take(k as int).contains((a, b))
                && dag.has_node(a) && dag.has_node(b))));
        }
        assert forall|t: int| #![trigger r.edges@[t]] 0 <= t < r.edges@.len() implies r.has_node(r.edges@[t].0) && r.has_node(r.edges@[t].1) by {
            if t < old_edges.len() {
                assert(r.edges@[t] == old_edges[t]);
            }
        }
        k += 1;
    }
    assert(edges@.take(k as int) =~= edges@);
    r
}

} // verus!
