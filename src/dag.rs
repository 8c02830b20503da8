use vstd::prelude::*;

verus! {

/// A directed graph over 16-bit node ids, kept as its node list (in insertion
/// order) and its edge list.
#[derive(Clone, Debug)]
pub struct Dag {
    pub nodes: Vec<u16>,
    pub edges: Vec<(u16, u16)>,
}

impl Dag {
    pub open spec fn has_node(&self, n: u16) -> bool {
        self.nodes@.contains(n)
    }

    pub open spec fn has_edge(&self, u: u16, v: u16) -> bool {
        self.edges@.contains((u, v))
    }

    /// No node or edge is listed twice, and every edge joins two listed nodes.
    pub open spec fn wf(&self) -> bool {
        &&& self.nodes@.no_duplicates()
        &&& self.edges@.no_duplicates()
        &&& forall|i: int|
            #![trigger self.edges@[i]]
            0 <= i < self.edges@.len() ==> self.has_node(self.edges@[i].0) && self.has_node(
                self.edges@[i].1,
            )
    }

    /// `order` lists every node once, and every edge goes forward in it.
    pub open spec fn is_topological_order(&self, order: Seq<u16>) -> bool {
        &&& order.no_duplicates()
        &&& forall|n: u16| #[trigger] order.contains(n) <==> self.has_node(n)
        &&& forall|i: int, j: int|
            0 <= i < order.len() && 0 <= j < order.len() && #[trigger] self.has_edge(
                order[i],
                order[j],
            ) ==> i < j
    }

    /// `path` is a walk of the graph: one or more ids, consecutive ones joined by edges.
    pub open spec fn is_path(&self, path: Seq<u16>) -> bool {
        &&& path.len() >= 1
        &&& forall|i: int| 0 <= i < path.len() - 1 ==> #[trigger] self.has_edge(path[i], path[i + 1])
    }

    /// Some walk leads from `u` to `v` (every id reaches itself).
    pub open spec fn reaches(&self, u: u16, v: u16) -> bool {
        exists|path: Seq<u16>| #[trigger] self.is_path(path) && path[0] == u && path.last() == v
    }

    /// `n` lies on a cycle: an edge leaves it towards an id that reaches it back.
    pub open spec fn on_cycle(&self, n: u16) -> bool {
        exists|m: u16| #[trigger] self.has_edge(n, m) && self.reaches(m, n)
    }

    /// The graph has no cycle: some order of its nodes has every edge going forward.
    pub open spec fn is_acyclic(&self) -> bool {
        exists|order: Seq<u16>| self.is_topological_order(order)
    }
}

/// Whether `g` has node `n`.
pub fn contains_node(g: &Dag, n: u16) -> (r: bool)
    ensures
        r == g.has_node(n),
{
    let mut k: usize = 0;
    while k < g.nodes.len()
        invariant
            0 <= k <= g.nodes@.len(),
            forall|t: int| 0 <= t < k ==> g.nodes@[t] != n,
        decreases g.nodes@.len() - k,
    {
        if g.nodes[k] == n {
            return true;
        }
        k += 1;
    }
    false
}

pub proof fn lemma_reaches_refl(g: Dag, u: u16)
    ensures
        g.reaches(u, u),
{
    let p = seq![u];
    assert(g.is_path(p));
}

pub proof fn lemma_edge_reaches(g: Dag, u: u16, v: u16)
    requires
        g.has_edge(u, v),
    ensures
        g.reaches(u, v),
{
    let p = seq![u, v];
    assert(g.is_path(p));
}

pub proof fn lemma_reaches_trans(g: Dag, u: u16, v: u16, w: u16)
    requires
        g.reaches(u, v),
        g.reaches(v, w),
    ensures
        g.reaches(u, w),
{
    let p = choose|p: Seq<u16>| #[trigger] g.is_path(p) && p[0] == u && p.last() == v;
    let q = choose|q: Seq<u16>| #[trigger] g.is_path(q) && q[0] == v && q.last() == w;
    let r = p + q.drop_first();
    assert forall|i: int| 0 <= i < r.len() - 1 implies #[trigger] g.has_edge(r[i], r[i + 1]) by {
        if i < p.len() - 1 {
            assert(r[i] == p[i] && r[i + 1] == p[i + 1]);
        } else {
            let k = i - (p.len() - 1);
            assert(r[i] == q[k]);
            assert(r[i + 1] == q[k + 1]);
        }
    }
    assert(g.is_path(r));
    if q.len() == 1 {
        assert(r =~= p);
    } else {
        assert(r.last() == q.last());
    }
}

/// A walk from `u` to a different id starts with an edge out of `u`.
pub proof fn lemma_first_step(g: Dag, u: u16, v: u16)
    requires
        g.reaches(u, v),
        u != v,
    ensures
        exists|x: u16| #[trigger] g.has_edge(u, x) && g.reaches(x, v),
{
    let p = choose|p: Seq<u16>| #[trigger] g.is_path(p) && p[0] == u && p.last() == v;
    assert(p.len() >= 2);
    let z: int = 0;
    assert(g.has_edge(p[z], p[z + 1]));
    let q = p.drop_first();
    assert forall|i: int| 0 <= i < q.len() - 1 implies #[trigger] g.has_edge(q[i], q[i + 1]) by {
        assert(q[i] == p[i + 1] && q[i + 1] == p[i + 2]);
    }
    assert(g.is_path(q));
    assert(q.last() == v);
    assert(g.has_edge(u, p[1]) && g.reaches(p[1], v));
}

/// In a well-formed graph, an id reached from a different id is a node.
pub proof fn lemma_reached_is_node(g: Dag, u: u16, v: u16)
    requires
        g.wf(),
        g.reaches(u, v),
        u != v,
    ensures
        g.has_node(v),
{
    let p = choose|p: Seq<u16>| #[trigger] g.is_path(p) && p[0] == u && p.last() == v;
    assert(p.len() >= 2);
    let k = p.len() - 2;
    assert(g.has_edge(p[k], p[k + 1]));
    let t = choose|t: int| 0 <= t < g.edges@.len() && g.edges@[t] == (p[k], p[k + 1]);
    assert(g.has_node(g.edges@[t].1));
}

} // verus!
