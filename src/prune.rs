use vstd::prelude::*;
use petgraph::graphmap::DiGraphMap;
use crate::dag::{Dag, lemma_edge_reaches, lemma_first_step, lemma_reached_is_node, lemma_reaches_refl, lemma_reaches_trans};
use crate::global_dag::lemma_push_contains;

verus! {

/// `comps` is the partition of the graph's nodes into strongly connected components.
pub open spec fn is_scc_partition(g: Dag, comps: Seq<Vec<u16>>) -> bool {
    &&& forall|i: int| 0 <= i < comps.len() ==> (#[trigger] comps[i])@.no_duplicates()
    &&& forall|i: int, n: u16|
        #![trigger comps[i]@.contains(n)]
        0 <= i < comps.len() && comps[i]@.contains(n) ==> g.has_node(n)
    &&& forall|n: u16|
        #![trigger g.has_node(n)]
        g.has_node(n) ==> exists|i: int| #![trigger comps[i]@.contains(n)] 0 <= i < comps.len() && comps[i]@.contains(n)
    &&& forall|i: int, j: int, n: u16|
        #![trigger comps[i]@.contains(n), comps[j]@.contains(n)]
        0 <= i < comps.len() && 0 <= j < comps.len() && comps[i]@.contains(n) && comps[j]@.contains(n) ==> i == j
    &&& forall|i: int, a: u16, b: u16|
        #![trigger comps[i]@.contains(a), comps[i]@.contains(b)]
        0 <= i < comps.len() && comps[i]@.contains(a) && g.has_node(b) ==> (comps[i]@.contains(b)
            <==> (g.reaches(a, b) && g.reaches(b, a)))
}

/// Relies on petgraph::algo::kosaraju_scc: on a graph map built from these nodes
/// and edges, it returns each node in exactly one component, and two nodes share
/// a component exactly when each reaches the other.
#[verifier::external_body]
fn strongly_connected_components(g: &Dag) -> (r: Vec<Vec<u16>>)
    requires
        g.wf(),
    ensures
        is_scc_partition(*g, r@),
{
    let mut graph: DiGraphMap<u16, ()> = DiGraphMap::new();
    for n in g.nodes.iter() {
        graph.add_node(*n);
    }
    for (u, v) in g.edges.iter() {
        graph.add_edge(*u, *v, ());
    }
    petgraph::algo::kosaraju_scc(&graph)
}

/// A node survives pruning: it lies on no cycle, or its strongly connected
/// component holds a fixed node.
pub open spec fn survives_pruning(g: Dag, fixed: Seq<u16>, n: u16) -> bool {
    &&& g.has_node(n)
    &&& (!g.on_cycle(n) || exists|m: u16| #[trigger] fixed.contains(m) && g.reaches(n, m) && g.reaches(m, n))
}

/// A flag for every node id, set for those listed.
fn flags_of(ids: &Vec<u16>) -> (r: Vec<bool>)
    ensures
        r@.len() == 65536,
        forall|n: u16| #[trigger] r@[n as int] == ids@.contains(n),
{
    let mut r: Vec<bool> = Vec::new();
    let mut z: usize = 0;
    while z < 65536
        invariant
            z <= 65536,
            r@.len() == z,
            forall|t: int| 0 <= t < z ==> !r@[t],
        decreases 65536 - z,
    {
        r.push(false);
        z += 1;
    }
    let mut k: usize = 0;
    while k < ids.len()
        invariant
            0 <= k <= ids@.len(),
            r@.len() == 65536,
            forall|n: u16| #[trigger] r@[n as int] == ids@.take(k as int).contains(n),
        decreases ids@.len() - k,
    {
        let n = ids[k];
        r.set(n as usize, true);
        assert(ids@.take(k as int + 1) =~= ids@.take(k as int).push(n));
        assert forall|m: u16| #[trigger] r@[m as int] == ids@.take(k as int + 1).contains(m) by {
            lemma_push_contains(ids@.take(k as int), n, m);
        }
        k += 1;
    }
    assert(ids@.take(k as int) =~= ids@);
    r
}

/// Whether `g` has the edge `u -> v`.
pub fn contains_edge(g: &Dag, u: u16, v: u16) -> (r: bool)
    ensures
        r == g.has_edge(u, v),
{
    let mut k: usize = 0;
    while k < g.edges.len()
        invariant
            0 <= k <= g.edges@.len(),
            forall|t: int| 0 <= t < k ==> g.edges@[t] != (u, v),
        decreases g.edges@.len() - k,
    {
        let (a, b) = g.edges[k];
        if a == u && b == v {
            return true;
        }
        k += 1;
    }
    false
}

/// Whether a component is kept, given the flags of the fixed nodes.
fn component_kept(g: &Dag, comp: &Vec<u16>, is_fixed: &Vec<bool>) -> (r: bool)
    requires
        is_fixed@.len() == 65536,
    ensures
        r == ((exists|m: u16| comp@.contains(m) && #[trigger] is_fixed@[m as int]) || (comp@.len() == 1
            && !g.has_edge(comp@[0], comp@[0]))),
{
    let mut k: usize = 0;
    while k < comp.len()
        invariant
            0 <= k <= comp@.len(),
            is_fixed@.len() == 65536,
            forall|t: int| 0 <= t < k ==> !is_fixed@[comp@[t] as int],
        decreases comp@.len() - k,
    {
        if is_fixed[comp[k] as usize] {
            assert(comp@.contains(comp@[k as int]));
            return true;
        }
        k += 1;
    }
    assert(!exists|m: u16| comp@.contains(m) && #[trigger] is_fixed@[m as int]) by {
        if exists|m: u16| comp@.contains(m) && #[trigger] is_fixed@[m as int] {
            let m = choose|m: u16| comp@.contains(m) && #[trigger] is_fixed@[m as int];
            let t = choose|t: int| 0 <= t < comp@.len() && comp@[t] == m;
            assert(!is_fixed@[comp@[t] as int]);
        }
    }
    comp.len() == 1 && !contains_edge(g, comp[0], comp[0])
}

/// The global DAG after pruning.
#[derive(Clone, Debug)]
pub struct PrunedGraph {
    pub pruned_graph: Dag,
}

impl PrunedGraph {
    /// Removes every strongly connected component that forms a cycle made only
    /// of pending (non-fixed) transactions; keeps the rest and the edges among it.
    pub fn new(global_dependency_graph: &Dag, fixed_transactions: &Vec<u16>) -> (r: PrunedGraph)
        requires
            global_dependency_graph.wf(),
        ensures
            r.pruned_graph.wf(),
            forall|n: u16| #[trigger] r.pruned_graph.has_node(n) <==> survives_pruning(
                *global_dependency_graph,
                fixed_transactions@,
                n,
            ),
            forall|u: u16, v: u16| #[trigger] r.pruned_graph.has_edge(u, v) <==> (global_dependency_graph.has_edge(u, v)
                && survives_pruning(*global_dependency_graph, fixed_transactions@, u)
                && survives_pruning(*global_dependency_graph, fixed_transactions@, v)),
    {
        let g = global_dependency_graph;
        let comps = strongly_connected_components(g);
        let is_fixed = flags_of(fixed_transactions);
        let mut keep: Vec<bool> = Vec::new();
        let mut z: usize = 0;
        while z < 65536
            invariant
                z <= 65536,
                keep@.len() == z,
                forall|t: int| 0 <= t < z ==> !keep@[t],
            decreases 65536 - z,
        {
            keep.push(false);
            z += 1;
        }
        let mut i: usize = 0;
        while i < comps.len()
            invariant
                0 <= i <= comps@.len(),
                g.wf(),
                is_scc_partition(*g, comps@),
                is_fixed@.len() == 65536,
                forall|n: u16| #[trigger] is_fixed@[n as int] == fixed_transactions@.contains(n),
                keep@.len() == 65536,
                forall|n: u16| g.has_node(n) ==> (#[trigger] keep@[n as int] <==> survives_pruning(*g, fixed_transactions@, n)
                    && exists|j: int| #![trigger comps@[j]] 0 <= j < i && comps@[j]@.contains(n)),
                forall|n: u16| !g.has_node(n) ==> !(#[trigger] keep@[n as int]),
            decreases comps@.len() - i,
        {
            let comp = &comps[i];
            let kept = component_kept(g, comp, &is_fixed);
            proof {
                assert(comp == comps@[i as int]);
                assert forall|n: u16| comp@.contains(n) implies (kept <==> survives_pruning(*g, fixed_transactions@, n)) by {
                    lemma_component_verdict(*g, fixed_transactions@, comps@, i as int, is_fixed@, n);
                }
            }
            if kept {
                let mut k: usize = 0;
                while k < comp.len()
                    invariant
                        0 <= k <= comp@.len(),
                        0 <= i < comps@.len(),
                        comp == comps@[i as int],
                        g.wf(),
                        is_scc_partition(*g, comps@),
                        keep@.len() == 65536,
                        forall|n: u16| comp@.contains(n) ==> survives_pruning(*g, fixed_transactions@, n),
                        forall|n: u16| g.has_node(n) ==> (#[trigger] keep@[n as int] <==> survives_pruning(*g, fixed_transactions@, n)
                            && ((exists|j: int| #![trigger comps@[j]] 0 <= j < i && comps@[j]@.contains(n)) || comp@.take(k as int).contains(n))),
                        forall|n: u16| !g.has_node(n) ==> !(#[trigger] keep@[n as int]),
                    decreases comp@.len() - k,
                {
                    let n = comp[k];
                    assert(comp@.contains(n));
                    keep.set(n as usize, true);
                    assert(comp@.take(k as int + 1) =~= comp@.take(k as int).push(n));
                    assert forall|m: u16| g.has_node(m) implies (#[trigger] keep@[m as int] <==> survives_pruning(*g, fixed_transactions@, m)
                        && ((exists|j: int| #![trigger comps@[j]] 0 <= j < i && comps@[j]@.contains(m)) || comp@.take(k as int + 1).contains(m))) by {
                        lemma_push_contains(comp@.take(k as int), n, m);
                    }
                    k += 1;
                }
                assert(comp@.take(k as int) =~= comp@);
            }
            assert forall|n: u16| g.has_node(n) implies (#[trigger] keep@[n as int] <==> survives_pruning(*g, fixed_transactions@, n)
                && exists|j: int| #![trigger comps@[j]] 0 <= j < i + 1 && comps@[j]@.contains(n)) by {
                if comp@.contains(n) {
                    assert(comps@[i as int]@.contains(n));
                }
                if exists|j: int| #![trigger comps@[j]] 0 <= j < i + 1 && comps@[j]@.contains(n) {
                    let j = choose|j: int| 0 <= j < i + 1 && comps@[j]@.contains(n);
                    if j == i {
                        assert(comp@.contains(n));
                    }
                }
            }
            i += 1;
        }
        proof {
            assert forall|n: u16| g.has_node(n) implies (#[trigger] keep@[n as int] <==> survives_pruning(*g, fixed_transactions@, n)) by {
                let j = choose|j: int| 0 <= j < comps@.len() && comps@[j]@.contains(n);
            }
        }
        let mut nodes: Vec<u16> = Vec::new();
        let mut k: usize = 0;
        while k < g.nodes.len()
            invariant
                0 <= k <= g.nodes@.len(),
                g.wf(),
                keep@.len() == 65536,
                forall|n: u16| #[trigger] keep@[n as int] <==> survives_pruning(*g, fixed_transactions@, n),
                nodes@.no_duplicates(),
                forall|n: u16| nodes@.contains(n) <==> g.nodes@.take(k as int).contains(n) && keep@[n as int],
            decreases g.nodes@.len() - k,
        {
            let n = g.nodes[k];
            assert(g.nodes@.take(k as int + 1) =~= g.nodes@.take(k as int).push(n));
            assert(!g.nodes@.take(k as int).contains(n)) by {
                if g.nodes@.take(k as int).contains(n) {
                    let t = choose|t: int| 0 <= t < k && g.nodes@.take(k as int)[t] == n;
                    assert(g.nodes@[t] == g.nodes@[k as int]);
                }
            }
            let ghost old_nodes = nodes@;
            if keep[n as usize] {
                nodes.push(n);
                assert forall|a: int, b: int| 0 <= a < b < nodes@.len() implies nodes@[a] != nodes@[b] by {
                    if b == old_nodes.len() {
                        assert(old_nodes.contains(old_nodes[a]));
                    }
                }
            }
            assert forall|m: u16| nodes@.contains(m) <==> g.nodes@.take(k as int + 1).contains(m) && keep@[m as int] by {
                lemma_push_contains(g.nodes@.take(k as int), n, m);
                lemma_push_contains(old_nodes, n, m);
            }
            k += 1;
        }
        assert(g.nodes@.take(k as int) =~= g.nodes@);
        let mut edges: Vec<(u16, u16)> = Vec::new();
        let mut k: usize = 0;
        while k < g.edges.len()
            invariant
                0 <= k <= g.edges@.len(),
                g.wf(),
                keep@.len() == 65536,
                forall|n: u16| #[trigger] keep@[n as int] <==> survives_pruning(*g, fixed_transactions@, n),
                edges@.no_duplicates(),
                forall|u: u16, v: u16| #[trigger] edges@.contains((u, v)) <==> g.edges@.take(k as int).contains((u, v)) && keep@[u as int] && keep@[v as int],
            decreases g.edges@.len() - k,
        {
            let (u, v) = g.edges[k];
            assert(g.edges@.take(k as int + 1) =~= g.edges@.take(k as int).push((u, v)));
            assert(!g.edges@.take(k as int).contains((u, v))) by {
                if g.edges@.take(k as int).contains((u, v)) {
                    let t = choose|t: int| 0 <= t < k && g.edges@.take(k as int)[t] == (u, v);
                    assert(g.edges@[t] == g.edges@[k as int]);
                }
            }
            let ghost old_edges = edges@;
            if keep[u as usize] && keep[v as usize] {
                edges.push((u, v));
                assert forall|a: int, b: int| 0 <= a < b < edges@.len() implies edges@[a] != edges@[b] by {
                    if b == old_edges.len() {
                        assert(old_edges.contains(old_edges[a]));
                    }
                }
            }
            assert forall|a: u16, b: u16| #[trigger] edges@.contains((a, b)) <==> g.edges@.take(k as int + 1).contains((a, b)) && keep@[a as int] && keep@[b as int] by {
                lemma_push_contains(g.edges@.take(k as int), (u, v), (a, b));
                lemma_push_contains(old_edges, (u, v), (a, b));
            }
            k += 1;
        }
        assert(g.edges@.take(k as int) =~= g.edges@);
        let pruned_graph = Dag { nodes, edges };
        assert forall|t: int| #![trigger pruned_graph.edges@[t]] 0 <= t < pruned_graph.edges@.len() implies pruned_graph.has_node(pruned_graph.edges@[t].0)
            && pruned_graph.has_node(pruned_graph.edges@[t].1) by {
            let (a, b) = pruned_graph.edges@[t];
            assert(pruned_graph.edges@.contains((a, b)));
        }
        PrunedGraph { pruned_graph }
    }
}

/// What `component_kept` decides for a component is, for each of its nodes,
/// whether the node survives pruning.
proof fn lemma_component_verdict(g: Dag, fixed: Seq<u16>, comps: Seq<Vec<u16>>, i: int, is_fixed: Seq<bool>, n: u16)
    requires
        g.wf(),
        is_scc_partition(g, comps),
        0 <= i < comps.len(),
        comps[i]@.contains(n),
        is_fixed.len() == 65536,
        forall|m: u16| #[trigger] is_fixed[m as int] == fixed.contains(m),
    ensures
        ((exists|m: u16| comps[i]@.contains(m) && #[trigger] is_fixed[m as int]) || (comps[i]@.len() == 1
            && !g.has_edge(comps[i]@[0], comps[i]@[0]))) <==> survives_pruning(g, fixed, n),
{
    let comp = comps[i]@;
    assert(g.has_node(n));
    lemma_reaches_refl(g, n);
    if exists|m: u16| comp.contains(m) && #[trigger] is_fixed[m as int] {
        let m = choose|m: u16| comp.contains(m) && #[trigger] is_fixed[m as int];
        assert(g.has_node(m));
        assert(fixed.contains(m) && g.reaches(n, m) && g.reaches(m, n));
    } else {
        // No fixed node is strongly connected with n.
        assert forall|m: u16| #[trigger] fixed.contains(m) implies !(g.reaches(n, m) && g.reaches(m, n)) by {
            if g.reaches(n, m) && g.reaches(m, n) {
                if m != n {
                    lemma_reached_is_node(g, n, m);
                }
                assert(comp.contains(m));
                assert(is_fixed[m as int]);
            }
        }
        if comp.len() == 1 && !g.has_edge(comp[0], comp[0]) {
            assert(comp[0] == n);
            assert forall|x: u16| #[trigger] g.has_edge(n, x) implies !g.reaches(x, n) by {
                if g.reaches(x, n) {
                    lemma_edge_reaches(g, n, x);
                    if x != n {
                        lemma_reached_is_node(g, n, x);
                        assert(comp.contains(x));
                        let t = choose|t: int| 0 <= t < comp.len() && comp[t] == x;
                        assert(t == 0);
                    }
                }
            }
        } else if comp.len() == 1 {
            assert(comp[0] == n);
            assert(g.has_edge(n, n) && g.reaches(n, n));
        } else {
            assert(comp.len() >= 2);
            let other = if comp[0] != n { comp[0] } else { comp[1] };
            assert(comp[0] != comp[1]);
            assert(comp.contains(other) && other != n);
            assert(g.has_node(other));
            assert(g.reaches(n, other) && g.reaches(other, n));
            lemma_first_step(g, n, other);
            let x = choose|x: u16| #[trigger] g.has_edge(n, x) && g.reaches(x, other);
            lemma_reaches_trans(g, x, other, n);
            assert(g.has_edge(n, x) && g.reaches(x, n));
        }
    }
}

} // verus!
