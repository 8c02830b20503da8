use vstd::prelude::*;
use std::collections::VecDeque;
use crate::dag::Dag;
use crate::global_dag::lemma_push_contains;

verus! {

/// Number of edges into `v` whose source is not done yet.
pub open spec fn in_count(edges: Seq<(u16, u16)>, done: Seq<bool>, v: u16) -> nat
    decreases edges.len(),
{
    if edges.len() == 0 {
        0
    } else {
        in_count(edges.drop_last(), done, v) + if edges.last().1 == v && !done[edges.last().0 as int] {
            1nat
        } else {
            0nat
        }
    }
}

/// Number of times the edge `u -> v` is listed.
pub open spec fn occurrences(edges: Seq<(u16, u16)>, u: u16, v: u16) -> nat
    decreases edges.len(),
{
    if edges.len() == 0 {
        0
    } else {
        occurrences(edges.drop_last(), u, v) + if edges.last() == (u, v) {
            1nat
        } else {
            0nat
        }
    }
}

proof fn lemma_in_count_le(edges: Seq<(u16, u16)>, done: Seq<bool>, v: u16)
    ensures
        in_count(edges, done, v) <= edges.len(),
    decreases edges.len(),
{
    if edges.len() > 0 {
        lemma_in_count_le(edges.drop_last(), done, v);
    }
}

proof fn lemma_in_count_complete(edges: Seq<(u16, u16)>, done: Seq<bool>, u: u16, w: u16)
    requires
        done.len() == 65536,
        !done[u as int],
    ensures
        in_count(edges, done.update(u as int, true), w) + occurrences(edges, u, w) == in_count(edges, done, w),
    decreases edges.len(),
{
    if edges.len() > 0 {
        lemma_in_count_complete(edges.drop_last(), done, u, w);
    }
}

proof fn lemma_occurrences_distinct(edges: Seq<(u16, u16)>, u: u16, v: u16)
    requires
        edges.no_duplicates(),
    ensures
        occurrences(edges, u, v) == if edges.contains((u, v)) { 1nat } else { 0nat },
    decreases edges.len(),
{
    if edges.len() > 0 {
        let init = edges.drop_last();
        assert(init.no_duplicates());
        lemma_occurrences_distinct(init, u, v);
        lemma_push_contains(init, edges.last(), (u, v));
        assert(edges =~= init.push(edges.last()));
        if edges.last() == (u, v) {
            assert(!init.contains((u, v))) by {
                if init.contains((u, v)) {
                    let t = choose|t: int| 0 <= t < init.len() && init[t] == (u, v);
                    assert(edges[t] == edges[edges.len() - 1]);
                }
            }
        }
    }
}

proof fn lemma_in_count_zero(edges: Seq<(u16, u16)>, done: Seq<bool>, v: u16)
    ensures
        in_count(edges, done, v) == 0 <==> forall|t: int| 0 <= t < edges.len() && #[trigger] edges[t].1 == v ==> done[edges[t].0 as int],
    decreases edges.len(),
{
    if edges.len() > 0 {
        let init = edges.drop_last();
        lemma_in_count_zero(init, done, v);
        if in_count(edges, done, v) == 0 {
            assert forall|t: int| 0 <= t < edges.len() && #[trigger] edges[t].1 == v implies done[edges[t].0 as int] by {
                if t < init.len() {
                    assert(init[t] == edges[t]);
                }
            }
        } else {
            if in_count(init, done, v) > 0 {
                let t = choose|t: int| 0 <= t < init.len() && #[trigger] init[t].1 == v && !done[init[t].0 as int];
                assert(edges[t] == init[t]);
            } else {
                let t = edges.len() - 1;
                assert(edges[t].1 == v && !done[edges[t].0 as int]);
            }
        }
        assert forall|t: int| 0 <= t < init.len() && #[trigger] init[t].1 == v implies done[init[t].0 as int] == done[edges[t].0 as int] by {
            assert(init[t] == edges[t]);
        }
    }
}

/// A flag array over all node ids.
fn all_flags(value: bool) -> (r: Vec<bool>)
    ensures
        r@.len() == 65536,
        forall|t: int| 0 <= t < 65536 ==> r@[t] == value,
{
    let mut r: Vec<bool> = Vec::new();
    let mut z: usize = 0;
    while z < 65536
        invariant
            z <= 65536,
            r@.len() == z,
            forall|t: int| 0 <= t < z ==> r@[t] == value,
        decreases 65536 - z,
    {
        r.push(value);
        z += 1;
    }
    r
}

/// Executes a DAG in dependency order: a node becomes ready once every node
/// with an edge into it has completed.
pub struct ParallelExecution {
    pub global_order_graph: Dag,
    /// For every id, the edges into it from nodes not completed yet.
    pub incoming_count: Vec<u64>,
    /// Nodes whose predecessors have all completed and that were not taken yet.
    pub ready: VecDeque<u16>,
    pub started: Vec<bool>,
    pub completed: Vec<bool>,
}

impl ParallelExecution {
    pub open spec fn wf(&self) -> bool {
        let g = self.global_order_graph;
        &&& g.wf()
        &&& self.incoming_count@.len() == 65536
        &&& self.started@.len() == 65536
        &&& self.completed@.len() == 65536
        &&& forall|v: u16| #[trigger] self.incoming_count@[v as int] == in_count(g.edges@, self.completed@, v)
        &&& self.ready@.no_duplicates()
        &&& forall|v: u16| #[trigger] self.ready@.contains(v) <==> (g.has_node(v) && !self.started@[v as int]
            && self.incoming_count@[v as int] == 0)
        &&& forall|v: u16| #[trigger] self.started@[v as int] ==> g.has_node(v)
        &&& forall|v: u16| #[trigger] self.completed@[v as int] ==> self.started@[v as int]
        &&& forall|u: u16, v: u16| #[trigger] g.has_edge(u, v) && self.started@[v as int] ==> self.completed@[u as int]
    }

    /// Prepares the execution of `global_order_graph`: the nodes with no
    /// incoming edge are ready.
    pub fn new(global_order_graph: Dag) -> (r: ParallelExecution)
        requires
            global_order_graph.wf(),
        ensures
            r.wf(),
            r.global_order_graph == global_order_graph,
            forall|v: u16| !(#[trigger] r.started@[v as int]),
    {
        let g = global_order_graph;
        let completed = all_flags(false);
        let started = all_flags(false);
        let mut incoming_count: Vec<u64> = Vec::new();
        let mut z: usize = 0;
        while z < 65536
            invariant
                z <= 65536,
                incoming_count@.len() == z,
                forall|t: int| 0 <= t < z ==> incoming_count@[t] == 0,
            decreases 65536 - z,
        {
            incoming_count.push(0);
            z += 1;
        }
        let mut k: usize = 0;
        while k < g.edges.len()
            invariant
                0 <= k <= g.edges@.len(),
                completed@.len() == 65536,
                forall|t: int| 0 <= t < 65536 ==> !completed@[t],
                incoming_count@.len() == 65536,
                forall|v: u16| #[trigger] incoming_count@[v as int] == in_count(g.edges@.take(k as int), completed@, v),
            decreases g.edges@.len() - k,
        {
            let (a, b) = g.edges[k];
            let ghost pre = g.edges@.take(k as int + 1);
            assert(pre.drop_last() =~= g.edges@.take(k as int));
            assert(pre.last() == (a, b));
            proof {
                lemma_in_count_le(g.edges@.take(k as int), completed@, b);
            }
            let c = incoming_count[b as usize];
            incoming_count.set(b as usize, c + 1);
            assert(!completed@[a as int]);
            k += 1;
        }
        assert(g.edges@.take(k as int) =~= g.edges@);
        let mut ready: VecDeque<u16> = VecDeque::new();
        let mut k: usize = 0;
        while k < g.nodes.len()
            invariant
                0 <= k <= g.nodes@.len(),
                g.wf(),
                incoming_count@.len() == 65536,
                ready@.no_duplicates(),
                forall|v: u16| #[trigger] ready@.contains(v) <==> (g.nodes@.take(k as int).contains(v) && incoming_count@[v as int] == 0),
            decreases g.nodes@.len() - k,
        {
            let n = g.nodes[k];
            assert(g.nodes@.take(k as int + 1) =~= g.nodes@.take(k as int).push(n));
            assert(!g.nodes@.take(k as int).contains(n)) by {
                if g.nodes@.take(k as int).contains(n) {
                    let t = choose|t: int| 0 <= t < k && g.nodes@.take(k as int)[t] == n;
                    assert(g.nodes@[t] == g.nodes@[k as int]);
                }
            }
            let ghost old_ready = ready@;
            if incoming_count[n as usize] == 0 {
                ready.push_back(n);
                assert forall|a: int, b: int| 0 <= a < b < ready@.len() implies ready@[a] != ready@[b] by {
                    if b == old_ready.len() {
                        assert(old_ready.contains(old_ready[a]));
                    }
                }
            }
            assert forall|v: u16| #[trigger] ready@.contains(v) <==> (g.nodes@.take(k as int + 1).contains(v) && incoming_count@[v as int] == 0) by {
                lemma_push_contains(g.nodes@.take(k as int), n, v);
                lemma_push_contains(old_ready, n, v);
            }
            k += 1;
        }
        assert(g.nodes@.take(k as int) =~= g.nodes@);
        ParallelExecution { global_order_graph: g, incoming_count, ready, started, completed }
    }

    /// Takes the next ready node, if any, and marks it started.
    pub fn take_ready(&mut self) -> (r: Option<u16>)
        requires
            old(self).wf(),
        ensures
            final(self).wf(),
            final(self).global_order_graph == old(self).global_order_graph,
            final(self).completed@ == old(self).completed@,
            r is None <==> old(self).ready@.len() == 0,
            r is None ==> final(self).started@ == old(self).started@ && final(self).ready@.len() == 0,
            r matches Some(v) ==> {
                &&& old(self).global_order_graph.has_node(v)
                &&& !old(self).started@[v as int]
                &&& final(self).started@ == old(self).started@.update(v as int, true)
                &&& forall|u: u16| #[trigger] old(self).global_order_graph.has_edge(u, v) ==> old(self).completed@[u as int]
            },
    {
        match self.ready.pop_front() {
            Some(v) => {
                let ghost g = self.global_order_graph;
                assert(old(self).ready@.contains(v)) by {
                    assert(old(self).ready@[0] == v);
                }
                proof {
                    lemma_in_count_zero(g.edges@, self.completed@, v);
                    assert forall|u: u16| #[trigger] g.has_edge(u, v) implies self.completed@[u as int] by {
                        let t = choose|t: int| 0 <= t < g.edges@.len() && g.edges@[t] == (u, v);
                        assert(g.edges@[t].1 == v);
                    }
                }
                self.started.set(v as usize, true);
                assert forall|w: u16| #[trigger] self.ready@.contains(w) <==> (g.has_node(w) && !self.started@[w as int]
                    && self.incoming_count@[w as int] == 0) by {
                    assert(old(self).ready@ =~= seq![v] + self.ready@);
                    if self.ready@.contains(w) {
                        let t = choose|t: int| 0 <= t < self.ready@.len() && self.ready@[t] == w;
                        assert(old(self).ready@[t + 1] == w);
                        assert(old(self).ready@[0] != old(self).ready@[t + 1]);
                    }
                    if w != v && old(self).ready@.contains(w) {
                        let t = choose|t: int| 0 <= t < old(self).ready@.len() && old(self).ready@[t] == w;
                        assert(t != 0);
                        assert(self.ready@[t - 1] == w);
                    }
                }
                Some(v)
            },
            None => None,
        }
    }

    /// Marks a started node completed, and makes ready every successor whose
    /// predecessors have now all completed.
    pub fn complete(&mut self, v: u16)
        requires
            old(self).wf(),
            old(self).started@[v as int],
            !old(self).completed@[v as int],
        ensures
            final(self).wf(),
            final(self).global_order_graph == old(self).global_order_graph,
            final(self).started@ == old(self).started@,
            final(self).completed@ == old(self).completed@.update(v as int, true),
    {
        let ghost g = self.global_order_graph;
        let ghost done0 = self.completed@;
        let ghost started0 = self.started@;
        self.completed.set(v as usize, true);
        let mut k: usize = 0;
        while k < self.global_order_graph.edges.len()
            invariant
                0 <= k <= g.edges@.len(),
                self.global_order_graph == g,
                g.wf(),
                done0.len() == 65536,
                !done0[v as int],
                self.completed@ == done0.update(v as int, true),
                self.started@ == started0,
                started0 == old(self).started@,
                self.incoming_count@.len() == 65536,
                self.started@.len() == 65536,
                self.completed@.len() == 65536,
                forall|w: u16| #[trigger] self.incoming_count@[w as int] + occurrences(g.edges@.take(k as int), v, w) == in_count(g.edges@, done0, w),
                self.ready@.no_duplicates(),
                forall|w: u16| #[trigger] self.ready@.contains(w) <==> (g.has_node(w) && !self.started@[w as int]
                    && self.incoming_count@[w as int] == 0),
                forall|w: u16| #[trigger] self.started@[w as int] ==> g.has_node(w),
                forall|w: u16| #[trigger] self.completed@[w as int] ==> self.started@[w as int],
                forall|a: u16, b: u16| #[trigger] g.has_edge(a, b) && self.started@[b as int] ==> done0[a as int],
            decreases g.edges@.len() - k,
        {
            let (a, b) = self.global_order_graph.edges[k];
            let ghost pre = g.edges@.take(k as int + 1);
            assert(pre.drop_last() =~= g.edges@.take(k as int));
            assert(pre.last() == (a, b));
            if a == v {
                // The edge v -> b still counts towards b.
                proof {
                    lemma_occurrences_distinct(g.edges@, v, b);
                    assert(g.edges@.contains((v, b))) by {
                        assert(g.edges@[k as int] == (v, b));
                    }
                    lemma_in_count_complete(g.edges@, done0, v, b);
                    lemma_occurrences_prefix_le(g.edges@, k as int + 1, v, b);
                }
                let c = self.incoming_count[b as usize];
                self.incoming_count.set(b as usize, c - 1);
                let ghost old_ready = self.ready@;
                if c == 1 && !self.started[b as usize] {
                    assert(g.has_node(b)) by {
                        assert(g.has_edge(v, b));
                        let t = choose|t: int| 0 <= t < g.edges@.len() && g.edges@[t] == (v, b);
                        assert(g.has_node(g.edges@[t].1));
                    }
                    self.ready.push_back(b);
                    assert forall|x: int, y: int| 0 <= x < y < self.ready@.len() implies self.ready@[x] != self.ready@[y] by {
                        if y == old_ready.len() {
                            assert(old_ready.contains(old_ready[x]));
                        }
                    }
                }
                assert forall|w: u16| #[trigger] self.ready@.contains(w) <==> (g.has_node(w) && !self.started@[w as int]
                    && self.incoming_count@[w as int] == 0) by {
                    lemma_push_contains(old_ready, b, w);
                }
            }
            k += 1;
        }
        assert(g.edges@.take(k as int) =~= g.edges@);
        proof {
            assert forall|w: u16| #[trigger] self.incoming_count@[w as int] == in_count(g.edges@, self.completed@, w) by {
                lemma_in_count_complete(g.edges@, done0, v, w);
            }
            assert forall|a: u16, b: u16| #[trigger] g.has_edge(a, b) && self.started@[b as int] implies self.completed@[a as int] by {
                assert(done0[a as int]);
            }
        }
    }

    /// Runs the whole graph one node at a time and returns the order in which
    /// the nodes ran.
    pub fn execute(&mut self) -> (order: Vec<u16>)
        requires
            old(self).wf(),
            forall|v: u16| !(#[trigger] old(self).started@[v as int]),
        ensures
            final(self).wf(),
            executed_in_order(old(self).global_order_graph, order@),
            old(self).global_order_graph.is_acyclic() ==> forall|v: u16| #[trigger] old(self).global_order_graph.has_node(v) ==> order@.contains(v),
    {
        let ghost g = self.global_order_graph;
        let mut order: Vec<u16> = Vec::new();
        loop
            invariant
                self.wf(),
                self.global_order_graph == g,
                order@.no_duplicates(),
                order@.len() <= g.nodes@.len(),
                forall|v: u16| #[trigger] self.started@[v as int] <==> order@.contains(v),
                forall|v: u16| #[trigger] self.started@[v as int] ==> self.completed@[v as int],
                executed_in_order(g, order@),
            ensures
                self.wf(),
                self.global_order_graph == g,
                executed_in_order(g, order@),
                forall|v: u16| #[trigger] self.started@[v as int] <==> order@.contains(v),
                forall|v: u16| #[trigger] self.started@[v as int] ==> self.completed@[v as int],
                self.ready@.len() == 0,
            decreases g.nodes@.len() - order@.len(),
        {
            let ghost pre_order = order@;
            match self.take_ready() {
                None => break,
                Some(v) => {
                    self.complete(v);
                    order.push(v);
                    proof {
                        assert(!pre_order.contains(v));
                        assert forall|w: u16| #[trigger] self.started@[w as int] <==> order@.contains(w) by {
                            lemma_push_contains(pre_order, v, w);
                        }
                        assert forall|x: int, y: int| 0 <= x < y < order@.len() implies order@[x] != order@[y] by {
                            if y == pre_order.len() {
                                assert(pre_order.contains(pre_order[x]));
                            }
                        }
                        lemma_distinct_nodes_bound(g, order@);
                        assert forall|x: int| 0 <= x < order@.len() implies #[trigger] g.has_node(order@[x]) by {
                            if x < pre_order.len() {
                                assert(order@[x] == pre_order[x]);
                            }
                        }
                        assert forall|x: int, u: u16| 0 <= x < order@.len() && #[trigger] g.has_edge(u, order@[x]) implies
                            exists|y: int| 0 <= y < x && order@[y] == u by {
                            if x < pre_order.len() {
                                assert(order@[x] == pre_order[x]);
                                let y = choose|y: int| 0 <= y < x && pre_order[y] == u;
                                assert(order@[y] == u);
                            } else {
                                assert(self.started@[u as int]);
                                assert(pre_order.contains(u));
                                let y = choose|y: int| 0 <= y < pre_order.len() && pre_order[y] == u;
                                assert(order@[y] == u);
                            }
                        }
                    }
                },
            }
        }
        proof {
            if g.is_acyclic() {
                let topo = choose|topo: Seq<u16>| g.is_topological_order(topo);
                assert forall|i: int| 0 <= i < topo.len() implies self.started@[#[trigger] topo[i] as int] by {
                    lemma_all_started(*self, topo, i);
                }
                assert forall|v: u16| #[trigger] g.has_node(v) implies order@.contains(v) by {
                    assert(topo.contains(v));
                    let i = choose|i: int| 0 <= i < topo.len() && topo[i] == v;
                    assert(self.started@[topo[i] as int]);
                }
            }
        }
        order
    }
}

/// `order` lists distinct nodes of `g`, and every node is preceded in it by all
/// of its predecessors.
pub open spec fn executed_in_order(g: Dag, order: Seq<u16>) -> bool {
    &&& order.no_duplicates()
    &&& forall|x: int| 0 <= x < order.len() ==> #[trigger] g.has_node(order[x])
    &&& forall|x: int, u: u16| 0 <= x < order.len() && #[trigger] g.has_edge(u, order[x]) ==> exists|y: int| 0 <= y < x && order[y] == u
}

proof fn lemma_occurrences_prefix_le(edges: Seq<(u16, u16)>, k: int, u: u16, v: u16)
    requires
        0 <= k <= edges.len(),
    ensures
        occurrences(edges.take(k), u, v) <= occurrences(edges, u, v),
    decreases edges.len(),
{
    if k < edges.len() {
        assert(edges.drop_last().take(k) =~= edges.take(k));
        lemma_occurrences_prefix_le(edges.drop_last(), k, u, v);
    } else {
        assert(edges.take(k) =~= edges);
    }
}

proof fn lemma_distinct_nodes_bound(g: Dag, s: Seq<u16>)
    requires
        g.wf(),
        s.no_duplicates(),
        forall|v: u16| s.contains(v) ==> g.has_node(v),
    ensures
        s.len() <= g.nodes@.len(),
{
    assert(s.to_set().subset_of(g.nodes@.to_set()));
    s.unique_seq_to_set();
    g.nodes@.unique_seq_to_set();
    vstd::set_lib::lemma_len_subset(s.to_set(), g.nodes@.to_set());
}

/// When nothing is ready and every started node has completed, in an acyclic
/// graph every node has started.
proof fn lemma_all_started(e: ParallelExecution, topo: Seq<u16>, i: int)
    requires
        e.wf(),
        e.ready@.len() == 0,
        forall|v: u16| #[trigger] e.started@[v as int] ==> e.completed@[v as int],
        e.global_order_graph.is_topological_order(topo),
        0 <= i < topo.len(),
    ensures
        e.started@[topo[i] as int],
    decreases i,
{
    let g = e.global_order_graph;
    let v = topo[i];
    assert(topo.contains(v));
    if !e.started@[v as int] {
        assert(!e.ready@.contains(v));
        assert(e.incoming_count@[v as int] != 0);
        lemma_in_count_zero(g.edges@, e.completed@, v);
        let t = choose|t: int| 0 <= t < g.edges@.len() && #[trigger] g.edges@[t].1 == v && !e.completed@[g.edges@[t].0 as int];
        let u = g.edges@[t].0;
        assert(g.has_edge(u, v));
        assert(g.has_node(u));
        assert(topo.contains(u));
        let j = choose|j: int| 0 <= j < topo.len() && topo[j] == u;
        assert(j < i);
        lemma_all_started(e, topo, j);
        assert(e.completed@[u as int]);
    }
}

} // verus!
